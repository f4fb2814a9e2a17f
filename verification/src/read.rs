//! Owned read-side views: whole-record reads with typed property access.
//!
//! An [`Element`] or [`Relation`] view carries the id, labels, and every
//! property of one subject together. Property access is typed through
//! [`Key<T>`]: a read of the wrong Rust type is a compile error.
use crate::error::{DbError, QueryError};
use crate::id::{ElementId, LabelId, PropertyKeyId, RelationId, RelationTypeId};
use crate::state::map_keys;
use crate::typed::{Key, Readable, ValueType};
use crate::value::{PropertyValue, ValueView};
use std::collections::BTreeMap;
use vstd::prelude::*;

verus! {

/// The map that `(key, value)` pairs collect into: a later pair for the same
/// key replaces an earlier one.
pub open spec fn pairs_map(pairs: Seq<(PropertyKeyId, PropertyValue)>) -> Map<u64, ValueView>
    decreases pairs.len(),
{
    if pairs.len() == 0 {
        Map::empty()
    } else {
        pairs_map(pairs.drop_last()).insert(pairs.last().0.0, pairs.last().1@)
    }
}

/// The position of the last pair in `pairs` whose key is `k`, or `-1` when
/// no pair has that key.
pub open spec fn last_pair_of(pairs: Seq<(PropertyKeyId, PropertyValue)>, k: u64) -> int
    decreases pairs.len(),
{
    if pairs.len() == 0 {
        -1
    } else if pairs.last().0.0 == k {
        pairs.len() - 1
    } else {
        last_pair_of(pairs.drop_last(), k)
    }
}

/// The distinct keys among `pairs`.
pub open spec fn pair_keys(pairs: Seq<(PropertyKeyId, PropertyValue)>) -> Set<u64> {
    Set::new(|k: u64| exists|i: int| 0 <= i < pairs.len() && #[trigger] pairs[i].0.0 == k)
}

/// The last pair for a key wins: a key no pair names is absent, and a key
/// some pair names holds the value of the last pair that names it.
pub proof fn lemma_pairs_last_wins(pairs: Seq<(PropertyKeyId, PropertyValue)>, k: u64)
    ensures
        -1 <= last_pair_of(pairs, k) < pairs.len(),
        last_pair_of(pairs, k) == -1 <==> !pairs_map(pairs).contains_key(k),
        last_pair_of(pairs, k) == -1 <==> !pair_keys(pairs).contains(k),
        last_pair_of(pairs, k) >= 0 ==> {
            let i = last_pair_of(pairs, k);
            &&& pairs[i].0.0 == k
            &&& pairs_map(pairs)[k] == pairs[i].1@
            &&& forall|j: int| i < j < pairs.len() ==> #[trigger] pairs[j].0.0 != k
        },
    decreases pairs.len(),
{
    if pairs.len() > 0 {
        let init = pairs.drop_last();
        lemma_pairs_last_wins(init, k);
        if pairs.last().0.0 != k {
            if pair_keys(pairs).contains(k) {
                let i = choose|i: int| 0 <= i < pairs.len() && #[trigger] pairs[i].0.0 == k;
                assert(init[i].0.0 == k);
            }
            if pair_keys(init).contains(k) {
                let i = choose|i: int| 0 <= i < init.len() && #[trigger] init[i].0.0 == k;
                assert(pairs[i].0.0 == k);
            }
            if last_pair_of(init, k) >= 0 {
                let i = last_pair_of(init, k);
                assert(pairs[i] == init[i]);
                assert forall|j: int| i < j < pairs.len() implies #[trigger] pairs[j].0.0 != k by {
                    if j < pairs.len() - 1 {
                        assert(init[j] == pairs[j]);
                    }
                }
            }
        } else {
            assert(pairs[pairs.len() - 1].0.0 == k);
        }
    }
}

/// The collected map holds exactly the distinct keys among the pairs: as
/// many entries as there are distinct keys.
pub proof fn lemma_pairs_distinct_count(pairs: Seq<(PropertyKeyId, PropertyValue)>)
    ensures
        pairs_map(pairs).dom() == pair_keys(pairs),
        pair_keys(pairs).finite(),
        pairs_map(pairs).len() == pair_keys(pairs).len(),
    decreases pairs.len(),
{
    lemma_pairs_map_finite(pairs);
    assert forall|k: u64| #[trigger] pairs_map(pairs).dom().contains(k) == pair_keys(pairs).contains(k) by {
        lemma_pairs_last_wins(pairs, k);
    }
    assert(pairs_map(pairs).dom() =~= pair_keys(pairs));
}

/// The collected map is finite.
proof fn lemma_pairs_map_finite(pairs: Seq<(PropertyKeyId, PropertyValue)>)
    ensures
        pairs_map(pairs).dom().finite(),
    decreases pairs.len(),
{
    if pairs.len() > 0 {
        lemma_pairs_map_finite(pairs.drop_last());
    }
}

/// Whether `r` is what reading key `k` of the bag `m` as `V` gives: `None`
/// when the key is absent, else what `V` reads from the stored value.
pub open spec fn read_as<T: ValueType, V: Readable<T>>(m: Map<u64, ValueView>, k: u64, r: Option<V>) -> bool {
    match m.get(k) {
        Some(v) => V::reads(v, r),
        None => r is None,
    }
}

/// Whether `r` is what requiring key `key` of the bag `m` as `V` gives: a
/// value `V` reads from the stored one, or `MissingProperty` when the key is
/// absent or the stored value does not read as `V`.
pub open spec fn required_as<T: ValueType, V: Readable<T>>(m: Map<u64, ValueView>, key: PropertyKeyId, r: Result<
    V,
    DbError,
>) -> bool {
    let missing = Err::<V, DbError>(DbError::Query(QueryError::MissingProperty { key }));
    match m.get(key.0) {
        Some(v) => match r {
            Ok(x) => V::reads(v, Some(x)),
            Err(_) => V::reads(v, None) && r == missing,
        },
        None => r == missing,
    }
}

/// `get` reads the stored value: it gives `None` when the key is absent,
/// and otherwise succeeds exactly when `V`'s own read of the stored value
/// does.
pub proof fn lemma_get_reads_stored<T: ValueType, V: Readable<T>>(
    m: Map<u64, ValueView>,
    k: u64,
    got: Option<V>,
    read: Option<V>,
)
    requires
        read_as(m, k, got),
        m.contains_key(k) ==> V::reads(m[k], read),
    ensures
        !m.contains_key(k) ==> got is None,
        m.contains_key(k) ==> (got is Some <==> read is Some),
{
    if m.contains_key(k) {
        V::lemma_reads_decided(m[k], got, read);
    }
}

/// `require` is `get` with a miss turned into `MissingProperty`: it fails,
/// with `MissingProperty` for the key, exactly when `get` gives `None`, and
/// what it returns is a value `V` reads from the stored one.
pub proof fn lemma_require_is_get_or_missing<T: ValueType, V: Readable<T>>(
    m: Map<u64, ValueView>,
    key: PropertyKeyId,
    got: Option<V>,
    required: Result<V, DbError>,
)
    requires
        read_as(m, key.0, got),
        required_as(m, key, required),
    ensures
        got is None <==> required == Err::<V, DbError>(DbError::Query(QueryError::MissingProperty { key })),
        got is Some <==> required is Ok,
        required matches Ok(v) ==> read_as(m, key.0, Some(v)),
{
    if m.contains_key(key.0) {
        let v = m[key.0];
        match required {
            Ok(x) => V::lemma_reads_decided(v, got, Some(x)),
            Err(_) => V::lemma_reads_decided(v, got, None),
        }
    }
}

/// A typed, owned property bag for one subject.
#[derive(Clone, Debug, Default)]
pub struct Properties {
    /// Visible property values keyed by raw property key id, in key order.
    values: BTreeMap<u64, PropertyValue>,
}

impl View for Properties {
    type V = Map<u64, ValueView>;

    closed spec fn view(&self) -> Map<u64, ValueView> {
        Map::new(|k: u64| self.values@.contains_key(k), |k: u64| self.values@[k]@)
    }
}

impl Properties {
    /// Builds a property bag from `(key, value)` pairs; a later pair for the
    /// same key wins.
    pub fn from_pairs(pairs: Vec<(PropertyKeyId, PropertyValue)>) -> (p: Self)
        ensures
            p@ == pairs_map(pairs@),
    {
        let mut values: BTreeMap<u64, PropertyValue> = BTreeMap::new();
        let ghost all = pairs@;
        proof {
            assert(all.take(0) =~= Seq::<(PropertyKeyId, PropertyValue)>::empty());
            assert(Map::new(|k: u64| values@.contains_key(k), |k: u64| values@[k]@) =~= Map::<u64, ValueView>::empty());
        }
        for pair in it: pairs.into_iter()
            invariant
                it.seq() == all,
                Map::new(|k: u64| values@.contains_key(k), |k: u64| values@[k]@) == pairs_map(
                    all.take(it.index() as int),
                ),
        {
            let ghost before = values@;
            let (key, value) = pair;
            proof {
                assert(all.take(it.index() + 1).drop_last() =~= all.take(it.index() as int));
                assert(all.take(it.index() + 1).last() == pair);
            }
            values.insert(key.get(), value);
            proof {
                assert(Map::new(|k: u64| values@.contains_key(k), |k: u64| values@[k]@) =~= pairs_map(
                    all.take(it.index() + 1),
                ));
            }
        }
        proof {
            assert(all.take(all.len() as int) =~= all);
        }
        Properties { values }
    }

    /// Reads a typed property, or `None` when absent or type-mismatched.
    pub fn get<T: ValueType, V: Readable<T>>(&self, key: Key<T>) -> (r: Option<V>)
        ensures
            read_as(self@, key.spec_id().0, r),
    {
        match self.values.get(&key.id().get()) {
            Some(value) => V::read(value),
            None => None,
        }
    }

    /// Reads a required typed property; a missing one is
    /// `MissingProperty`.
    pub fn require<T: ValueType, V: Readable<T>>(&self, key: Key<T>) -> (r: Result<V, DbError>)
        ensures
            required_as(self@, key.spec_id(), r),
    {
        match self.get(key) {
            Some(v) => Ok(v),
            None => Err(DbError::Query(QueryError::MissingProperty { key: key.id() })),
        }
    }

    /// Returns the raw value for an untyped key.
    pub fn value(&self, key: PropertyKeyId) -> (r: Option<&PropertyValue>)
        ensures
            match r {
                Some(v) => self@.get(key.0) == Some(v@),
                None => self@.get(key.0) is None,
            },
    {
        self.values.get(&key.get())
    }

    /// Returns the number of visible properties.
    pub fn len(&self) -> (n: usize)
        ensures
            n == self@.len(),
    {
        proof {
            assert(self@.dom() =~= self.values@.dom());
        }
        self.values.len()
    }

    /// Returns whether there are no visible properties.
    pub fn is_empty(&self) -> (b: bool)
        ensures
            b == (self@.len() == 0),
    {
        proof {
            assert(self@.dom() =~= self.values@.dom());
            vstd::set_lib::lemma_set_empty_equivalency_len(self@.dom());
        }
        self.values.is_empty()
    }

    /// Lists the `(key, value)` pairs, each key once, in ascending key order.
    pub fn iter(&self) -> (r: Vec<(PropertyKeyId, &PropertyValue)>)
        ensures
            r@.len() == self@.len(),
            forall|i: int, j: int| 0 <= i < j < r@.len() ==> r@[i].0.0 < r@[j].0.0,
            forall|i: int, j: int| 0 <= i < j < r@.len() ==> r@[i].0 != r@[j].0,
            forall|i: int| 0 <= i < r@.len() ==> #[trigger] self@.get(r@[i].0.0) == Some(r@[i].1@),
            forall|k: u64| #[trigger] self@.contains_key(k) ==> exists|i: int| 0 <= i < r@.len() && r@[i].0.0 == k,
    {
        let keys = crate::state::sorted_keys(&self.values);
        let mut out: Vec<(PropertyKeyId, &PropertyValue)> = Vec::new();
        let mut i: usize = 0;
        while i < keys.len()
            invariant
                i <= keys@.len(),
                keys@.to_set() == self.values@.dom(),
                keys@.no_duplicates(),
                forall|a: int, b: int| 0 <= a < b < keys@.len() ==> keys@[a] < keys@[b],
                out@.len() == i,
                forall|j: int| 0 <= j < i ==> #[trigger] out@[j].0.0 == keys@[j],
                forall|j: int| 0 <= j < i ==> self@.get(#[trigger] out@[j].0.0) == Some(out@[j].1@),
            decreases keys@.len() - i,
        {
            let k = keys[i];
            proof {
                assert(keys@.to_set().contains(k));
            }
            match self.values.get(&k) {
                Some(v) => out.push((PropertyKeyId::new(k), v)),
                None => {
                    proof {
                        assert(false);
                    }
                },
            }
            i = i + 1;
        }
        proof {
            assert(self@.dom() =~= self.values@.dom());
            keys@.unique_seq_to_set();
            assert forall|k: u64| #[trigger] self@.contains_key(k) implies exists|j: int|
                0 <= j < out@.len() && out@[j].0.0 == k by {
                assert(keys@.to_set().contains(k));
                let j = choose|j: int| 0 <= j < keys@.len() && keys@[j] == k;
                assert(out@[j].0.0 == k);
            }
            assert forall|a: int, b: int| 0 <= a < b < out@.len() implies out@[a].0.0 < out@[b].0.0 by {
                assert(out@[a].0.0 == keys@[a]);
                assert(out@[b].0.0 == keys@[b]);
            }
            assert forall|a: int, b: int| 0 <= a < b < out@.len() implies out@[a].0 != out@[b].0 by {
                assert(out@[a].0.0 == keys@[a]);
                assert(out@[b].0.0 == keys@[b]);
            }
        }
        out
    }
}

/// Whether a label list is in ascending order.
pub open spec fn labels_sorted(labels: Seq<LabelId>) -> bool {
    forall|i: int, j: int| 0 <= i < j < labels.len() ==> labels[i].0 < labels[j].0
}

/// Binary search of `label` in a label list. A `true` answer always names a
/// member; on an ascending list the answer is exact.
fn search_labels(labels: &Vec<LabelId>, label: LabelId) -> (b: bool)
    ensures
        b ==> labels@.contains(label),
        labels_sorted(labels@) ==> (b <==> labels@.contains(label)),
{
    let mut lo: usize = 0;
    let mut hi: usize = labels.len();
    while lo < hi
        invariant
            lo <= hi <= labels@.len(),
            labels_sorted(labels@) ==> forall|i: int| 0 <= i < lo ==> labels@[i].0 < label.0,
            labels_sorted(labels@) ==> forall|i: int| hi <= i < labels@.len() ==> labels@[i].0 > label.0,
        decreases hi - lo,
    {
        let mid = lo + (hi - lo) / 2;
        let here = labels[mid].get();
        if here == label.get() {
            proof {
                assert(labels@[mid as int] == label);
            }
            return true;
        } else if here < label.get() {
            lo = mid + 1;
        } else {
            hi = mid;
        }
    }
    proof {
        if labels_sorted(labels@) && labels@.contains(label) {
            let i = choose|i: int| 0 <= i < labels@.len() && labels@[i] == label;
        }
    }
    false
}

/// An owned element view: id, labels, and all properties in one read.
#[derive(Clone, Debug)]
pub struct Element {
    /// Canonical element id.
    pub id: ElementId,
    /// Labels assigned to this element, ascending.
    pub labels: Vec<LabelId>,
    /// The element's property bag.
    properties: Properties,
}

impl Element {
    /// The element id.
    pub closed spec fn spec_id(&self) -> ElementId {
        self.id
    }

    /// The label list.
    pub closed spec fn label_view(&self) -> Seq<LabelId> {
        self.labels@
    }
    /// Assembles an owned element view.
    pub fn new(id: ElementId, labels: Vec<LabelId>, properties: Properties) -> (e: Self)
        ensures
            e.spec_id() == id,
            e.label_view() == labels@,
            e.property_view() == properties@,
    {
        Element { id, labels, properties }
    }

    /// The property bag's content.
    pub closed spec fn property_view(&self) -> Map<u64, ValueView> {
        self.properties@
    }

    /// Returns whether this element carries `label` (a binary search of the
    /// ascending label list).
    pub fn has(&self, label: LabelId) -> (b: bool)
        ensures
            b ==> self.label_view().contains(label),
            labels_sorted(self.label_view()) ==> (b <==> self.label_view().contains(label)),
    {
        search_labels(&self.labels, label)
    }

    /// Returns this element's property bag.
    pub fn properties(&self) -> (p: &Properties)
        ensures
            p@ == self.property_view(),
    {
        &self.properties
    }
}

/// An owned relation view: id, type, labels, and all properties in one read.
#[derive(Clone, Debug)]
pub struct Relation {
    /// Canonical relation id.
    pub id: RelationId,
    /// The relation's type, if set.
    pub relation_type: Option<RelationTypeId>,
    /// Labels assigned to this relation, ascending.
    pub labels: Vec<LabelId>,
    /// The relation's property bag.
    properties: Properties,
}

impl Relation {
    /// The relation id.
    pub closed spec fn spec_id(&self) -> RelationId {
        self.id
    }

    /// The relation type.
    pub closed spec fn spec_relation_type(&self) -> Option<RelationTypeId> {
        self.relation_type
    }

    /// The label list.
    pub closed spec fn label_view(&self) -> Seq<LabelId> {
        self.labels@
    }
    /// Assembles an owned relation view.
    pub fn new(
        id: RelationId,
        relation_type: Option<RelationTypeId>,
        labels: Vec<LabelId>,
        properties: Properties,
    ) -> (r: Self)
        ensures
            r.spec_id() == id,
            r.spec_relation_type() == relation_type,
            r.label_view() == labels@,
            r.property_view() == properties@,
    {
        Relation { id, relation_type, labels, properties }
    }

    /// The property bag's content.
    pub closed spec fn property_view(&self) -> Map<u64, ValueView> {
        self.properties@
    }

    /// Returns whether this relation carries `label` (a binary search of the
    /// ascending label list).
    pub fn has(&self, label: LabelId) -> (b: bool)
        ensures
            b ==> self.label_view().contains(label),
            labels_sorted(self.label_view()) ==> (b <==> self.label_view().contains(label)),
    {
        search_labels(&self.labels, label)
    }

    /// Returns this relation's property bag.
    pub fn properties(&self) -> (p: &Properties)
        ensures
            p@ == self.property_view(),
    {
        &self.properties
    }
}

} // verus!
