//! The fixed record layouts of a base file and what they decode to.
//!
//! A base holds element, relation, incidence, and property records. Label
//! sets live in two word sections that the element and relation records
//! index into; text values live in one byte section that the property
//! records index into.
use crate::error::{DbError, StorageError};
use crate::id::{ElementId, IncidenceId, RelationId, RoleId};
use crate::overlay::flatten_values;
use crate::state::{
    element_views, relation_views, subject_key, subject_key_of, ElementRecord, ElementView, IncidenceRecord,
    RelationRecord, RelationView,
};
use crate::value::{PropertyValue, ValueView};
use crate::wire::{decode_subject, spec_decode_subject, RELATION_TYPE_NONE};
use std::collections::{BTreeMap, BTreeSet};
use vstd::prelude::*;

verus! {

/// One base element record: its id and the run of its labels in the
/// element-label section.
#[derive(Clone, Copy, Debug, PartialEq, Eq, Structural)]
pub struct ElementWire {
    /// Canonical element id.
    pub id: u64,
    /// Start index of the element's labels.
    pub label_off: u32,
    /// Number of labels the element carries.
    pub label_len: u32,
}

/// One base relation record: its id, its relation-type word (the sentinel
/// for none), and the run of its labels in the relation-label section.
#[derive(Clone, Copy, Debug, PartialEq, Eq, Structural)]
pub struct RelationWire {
    /// Canonical relation id.
    pub id: u64,
    /// Relation-type id, or [`RELATION_TYPE_NONE`].
    pub relation_type: u64,
    /// Start index of the relation's labels.
    pub label_off: u32,
    /// Number of labels the relation carries.
    pub label_len: u32,
}

/// One base incidence record: id, owning relation, participating element,
/// and role.
#[derive(Clone, Copy, Debug, PartialEq, Eq, Structural)]
pub struct IncidenceWire {
    /// Canonical incidence id.
    pub id: u64,
    /// Id of the relation containing the incidence.
    pub relation: u64,
    /// Id of the participating element.
    pub element: u64,
    /// Role id of the incidence.
    pub role: u64,
}

/// One base property record: its subject, key, value tag, scalar word, and
/// the run of its text in the text section.
#[derive(Clone, Copy, Debug, PartialEq, Eq, Structural)]
pub struct PropertyWire {
    /// Subject kind tag.
    pub subject_kind: u32,
    /// Stored value-type tag.
    pub value_tag: u32,
    /// Subject id within its family.
    pub subject_id: u64,
    /// Property-key id.
    pub key: u64,
    /// Boolean (`0`/`1`) or `i64`-as-`u64` scalar; unused for text.
    pub scalar: u64,
    /// Byte offset of a text value; unused otherwise.
    pub text_off: u32,
    /// Byte length of a text value; unused otherwise.
    pub text_len: u32,
}

/// The invalid-store error with `reason`.
pub open spec fn invalid(reason: &'static str) -> DbError {
    DbError::Storage(StorageError::InvalidStore { reason })
}

/// The label set of the run `(off, len)` of a label section, or `None` when
/// the run is out of bounds.
pub open spec fn spec_label_run(labels: Seq<u64>, off: u32, len: u32) -> Option<Set<u64>> {
    if off + len <= labels.len() {
        Some(labels.subrange(off as int, off + len).to_set())
    } else {
        None
    }
}

/// The base elements the records decode to, by id (a later record for an id
/// replaces an earlier one), or the error of the first record whose label
/// run is out of bounds.
pub open spec fn spec_decode_elements(recs: Seq<ElementWire>, labels: Seq<u64>) -> Result<
    Map<u64, ElementView>,
    DbError,
>
    decreases recs.len(),
{
    if recs.len() == 0 {
        Ok(Map::empty())
    } else {
        match spec_decode_elements(recs.drop_last(), labels) {
            Err(e) => Err(e),
            Ok(m) => {
                let rec = recs.last();
                match spec_label_run(labels, rec.label_off, rec.label_len) {
                    None => Err(invalid("base label run out of bounds")),
                    Some(set) => Ok(m.insert(rec.id, ElementView { id: rec.id, labels: set })),
                }
            },
        }
    }
}

/// The base relations the records decode to, by id, or the error of the
/// first record whose label run is out of bounds.
pub open spec fn spec_decode_relations(recs: Seq<RelationWire>, labels: Seq<u64>) -> Result<
    Map<u64, RelationView>,
    DbError,
>
    decreases recs.len(),
{
    if recs.len() == 0 {
        Ok(Map::empty())
    } else {
        match spec_decode_relations(recs.drop_last(), labels) {
            Err(e) => Err(e),
            Ok(m) => {
                let rec = recs.last();
                match spec_label_run(labels, rec.label_off, rec.label_len) {
                    None => Err(invalid("base label run out of bounds")),
                    Some(set) => Ok(
                        m.insert(
                            rec.id,
                            RelationView {
                                id: rec.id,
                                relation_type: if rec.relation_type == RELATION_TYPE_NONE {
                                    None
                                } else {
                                    Some(rec.relation_type)
                                },
                                labels: set,
                            },
                        ),
                    ),
                }
            },
        }
    }
}

/// The base incidences the records decode to, by id.
pub open spec fn spec_decode_incidences(recs: Seq<IncidenceWire>) -> Map<u64, IncidenceRecord>
    decreases recs.len(),
{
    if recs.len() == 0 {
        Map::empty()
    } else {
        let rec = recs.last();
        spec_decode_incidences(recs.drop_last()).insert(
            rec.id,
            IncidenceRecord {
                id: IncidenceId(rec.id),
                relation: RelationId(rec.relation),
                element: ElementId(rec.element),
                role: RoleId(rec.role),
            },
        )
    }
}

/// The `((subject key, key), value)` one property record decodes to: its
/// subject kind and value tag must be known, and a text value's run must lie
/// inside the text section and hold UTF-8.
pub open spec fn spec_decode_property(rec: PropertyWire, text: Seq<u8>) -> Result<
    (((u32, u64), u64), ValueView),
    DbError,
> {
    match spec_decode_subject(rec.subject_kind, rec.subject_id) {
        None => Err(invalid("base property subject kind out of range")),
        Some(subject) => {
            let k = (subject_key(subject), rec.key);
            if rec.value_tag == 0 {
                Ok((k, ValueView::Boolean(rec.scalar != 0)))
            } else if rec.value_tag == 1 {
                Ok((k, ValueView::Integer(rec.scalar as i64)))
            } else if rec.value_tag == 2 {
                if rec.text_off + rec.text_len <= text.len() {
                    let bytes = text.subrange(rec.text_off as int, rec.text_off + rec.text_len);
                    if vstd::utf8::valid_utf8(bytes) {
                        Ok((k, ValueView::Text(vstd::utf8::decode_utf8(bytes))))
                    } else {
                        Err(invalid("base property text is not UTF-8"))
                    }
                } else {
                    Err(invalid("base property text out of bounds"))
                }
            } else {
                Err(invalid("base property value tag out of range"))
            }
        },
    }
}

/// The base properties the records decode to, keyed by `(subject key,
/// key)` (a later record replaces an earlier one), or the error of the first
/// record that does not decode.
pub open spec fn spec_decode_properties(recs: Seq<PropertyWire>, text: Seq<u8>) -> Result<
    Map<((u32, u64), u64), ValueView>,
    DbError,
>
    decreases recs.len(),
{
    if recs.len() == 0 {
        Ok(Map::empty())
    } else {
        match spec_decode_properties(recs.drop_last(), text) {
            Err(e) => Err(e),
            Ok(m) => match spec_decode_property(recs.last(), text) {
                Err(e) => Err(e),
                Ok(entry) => Ok(m.insert(entry.0, entry.1)),
            },
        }
    }
}

/// A failed prefix fails the whole run of element records with its error.
pub proof fn lemma_elements_error_stays(recs: Seq<ElementWire>, labels: Seq<u64>, j: int)
    requires
        0 <= j <= recs.len(),
        spec_decode_elements(recs.take(j), labels) is Err,
    ensures
        spec_decode_elements(recs, labels) == spec_decode_elements(recs.take(j), labels),
    decreases recs.len() - j,
{
    if j < recs.len() {
        assert(recs.take(j + 1).drop_last() =~= recs.take(j));
        lemma_elements_error_stays(recs, labels, j + 1);
    } else {
        assert(recs.take(j) =~= recs);
    }
}

/// A failed prefix fails the whole run of relation records with its error.
pub proof fn lemma_relations_error_stays(recs: Seq<RelationWire>, labels: Seq<u64>, j: int)
    requires
        0 <= j <= recs.len(),
        spec_decode_relations(recs.take(j), labels) is Err,
    ensures
        spec_decode_relations(recs, labels) == spec_decode_relations(recs.take(j), labels),
    decreases recs.len() - j,
{
    if j < recs.len() {
        assert(recs.take(j + 1).drop_last() =~= recs.take(j));
        lemma_relations_error_stays(recs, labels, j + 1);
    } else {
        assert(recs.take(j) =~= recs);
    }
}

/// A failed prefix fails the whole run of property records with its error.
pub proof fn lemma_properties_error_stays(recs: Seq<PropertyWire>, text: Seq<u8>, j: int)
    requires
        0 <= j <= recs.len(),
        spec_decode_properties(recs.take(j), text) is Err,
    ensures
        spec_decode_properties(recs, text) == spec_decode_properties(recs.take(j), text),
    decreases recs.len() - j,
{
    if j < recs.len() {
        assert(recs.take(j + 1).drop_last() =~= recs.take(j));
        lemma_properties_error_stays(recs, text, j + 1);
    } else {
        assert(recs.take(j) =~= recs);
    }
}

/// The label set of the run `(off, len)` of a label section, or `None`
/// when the run is out of bounds.
pub fn label_set(labels: &[u64], off: u32, len: u32) -> (r: Option<BTreeSet<u64>>)
    ensures
        match spec_label_run(labels@, off, len) {
            Some(set) => r matches Some(s) && s@ == set,
            None => r is None,
        },
{
    let end: u64 = off as u64 + len as u64;
    if end > labels.len() as u64 {
        return None;
    }
    let start = off as usize;
    let stop = end as usize;
    let mut set: BTreeSet<u64> = BTreeSet::new();
    let mut i: usize = start;
    proof {
        assert(labels@.subrange(start as int, start as int).to_set() =~= Set::<u64>::empty());
    }
    while i < stop
        invariant
            start <= i <= stop,
            stop <= labels@.len(),
            start == off,
            stop == off + len,
            set@ == labels@.subrange(start as int, i as int).to_set(),
        decreases stop - i,
    {
        let ghost before = set@;
        set.insert(labels[i]);
        proof {
            let s0 = labels@.subrange(start as int, i as int);
            let s1 = labels@.subrange(start as int, i + 1);
            assert(s1 =~= s0.push(labels@[i as int]));
            assert forall|x: u64| s1.to_set().contains(x) <==> before.insert(labels@[i as int]).contains(x) by {
                if s1.contains(x) {
                    let k = choose|k: int| 0 <= k < s1.len() && s1[k] == x;
                    if k < s0.len() {
                        assert(s0[k] == x);
                    }
                }
                if s0.contains(x) {
                    let k = choose|k: int| 0 <= k < s0.len() && s0[k] == x;
                    assert(s1[k] == x);
                }
                if x == labels@[i as int] {
                    assert(s1[s0.len() as int] == x);
                }
            }
            assert(set@ =~= s1.to_set());
        }
        i = i + 1;
    }
    Some(set)
}

/// Decodes the base element records into records by id.
pub fn decode_elements(recs: &[ElementWire], labels: &[u64]) -> (r: Result<BTreeMap<u64, ElementRecord>, DbError>)
    ensures
        match spec_decode_elements(recs@, labels@) {
            Ok(m) => r matches Ok(x) && element_views(x@) == m,
            Err(e) => r == Err::<BTreeMap<u64, ElementRecord>, DbError>(e),
        },
{
    let mut out: BTreeMap<u64, ElementRecord> = BTreeMap::new();
    let mut i: usize = 0;
    proof {
        assert(recs@.take(0) =~= Seq::<ElementWire>::empty());
        assert(element_views(out@) =~= Map::<u64, ElementView>::empty());
    }
    while i < recs.len()
        invariant
            i <= recs@.len(),
            spec_decode_elements(recs@.take(i as int), labels@) == Ok::<Map<u64, ElementView>, DbError>(
                element_views(out@),
            ),
        decreases recs@.len() - i,
    {
        let rec = recs[i];
        proof {
            assert(recs@.take(i + 1).drop_last() =~= recs@.take(i as int));
            assert(recs@.take(i + 1).last() == rec);
        }
        match label_set(labels, rec.label_off, rec.label_len) {
            None => {
                proof {
                    lemma_elements_error_stays(recs@, labels@, i + 1);
                }
                return Err(DbError::Storage(StorageError::invalid_store("base label run out of bounds")));
            },
            Some(set) => {
                let ghost before = out@;
                let id = ElementId::new(rec.id);
                out.insert(rec.id, ElementRecord { id, labels: set });
                proof {
                    assert(element_views(out@) =~= element_views(before).insert(
                        rec.id,
                        ElementView { id: rec.id, labels: set@ },
                    ));
                }
            },
        }
        i = i + 1;
    }
    proof {
        assert(recs@.take(i as int) =~= recs@);
    }
    Ok(out)
}

/// Decodes the base relation records into records by id.
pub fn decode_relations(recs: &[RelationWire], labels: &[u64]) -> (r: Result<BTreeMap<u64, RelationRecord>, DbError>)
    ensures
        match spec_decode_relations(recs@, labels@) {
            Ok(m) => r matches Ok(x) && relation_views(x@) == m,
            Err(e) => r == Err::<BTreeMap<u64, RelationRecord>, DbError>(e),
        },
{
    let mut out: BTreeMap<u64, RelationRecord> = BTreeMap::new();
    let mut i: usize = 0;
    proof {
        assert(recs@.take(0) =~= Seq::<RelationWire>::empty());
        assert(relation_views(out@) =~= Map::<u64, RelationView>::empty());
    }
    while i < recs.len()
        invariant
            i <= recs@.len(),
            spec_decode_relations(recs@.take(i as int), labels@) == Ok::<Map<u64, RelationView>, DbError>(
                relation_views(out@),
            ),
        decreases recs@.len() - i,
    {
        let rec = recs[i];
        proof {
            assert(recs@.take(i + 1).drop_last() =~= recs@.take(i as int));
            assert(recs@.take(i + 1).last() == rec);
        }
        match label_set(labels, rec.label_off, rec.label_len) {
            None => {
                proof {
                    lemma_relations_error_stays(recs@, labels@, i + 1);
                }
                return Err(DbError::Storage(StorageError::invalid_store("base label run out of bounds")));
            },
            Some(set) => {
                let ghost before = out@;
                let relation_type = crate::wire::decode_relation_type(rec.relation_type);
                out.insert(rec.id, RelationRecord { id: RelationId::new(rec.id), relation_type, labels: set });
                proof {
                    assert(relation_views(out@) =~= relation_views(before).insert(
                        rec.id,
                        RelationView {
                            id: rec.id,
                            relation_type: if rec.relation_type == RELATION_TYPE_NONE {
                                None
                            } else {
                                Some(rec.relation_type)
                            },
                            labels: set@,
                        },
                    ));
                }
            },
        }
        i = i + 1;
    }
    proof {
        assert(recs@.take(i as int) =~= recs@);
    }
    Ok(out)
}

/// Decodes the base incidence records into records by id.
pub fn decode_incidences(recs: &[IncidenceWire]) -> (r: BTreeMap<u64, IncidenceRecord>)
    ensures
        r@ == spec_decode_incidences(recs@),
{
    let mut out: BTreeMap<u64, IncidenceRecord> = BTreeMap::new();
    let mut i: usize = 0;
    proof {
        assert(recs@.take(0) =~= Seq::<IncidenceWire>::empty());
        assert(out@ =~= Map::<u64, IncidenceRecord>::empty());
    }
    while i < recs.len()
        invariant
            i <= recs@.len(),
            out@ == spec_decode_incidences(recs@.take(i as int)),
        decreases recs@.len() - i,
    {
        let rec = recs[i];
        proof {
            assert(recs@.take(i + 1).drop_last() =~= recs@.take(i as int));
            assert(recs@.take(i + 1).last() == rec);
        }
        out.insert(
            rec.id,
            IncidenceRecord {
                id: IncidenceId::new(rec.id),
                relation: RelationId::new(rec.relation),
                element: ElementId::new(rec.element),
                role: RoleId::new(rec.role),
            },
        );
        i = i + 1;
    }
    proof {
        assert(recs@.take(i as int) =~= recs@);
    }
    out
}

/// Decodes one base property record into its subject key, key, and value.
pub fn decode_property(rec: &PropertyWire, text: &[u8]) -> (r: Result<((u32, u64), u64, PropertyValue), DbError>)
    ensures
        match spec_decode_property(*rec, text@) {
            Ok(entry) => r matches Ok(x) && (x.0, x.1) == entry.0 && x.2@ == entry.1,
            Err(e) => r == Err::<((u32, u64), u64, PropertyValue), DbError>(e),
        },
{
    let subject = match decode_subject(rec.subject_kind, rec.subject_id) {
        Some(s) => s,
        None => return Err(DbError::Storage(StorageError::invalid_store("base property subject kind out of range"))),
    };
    let sk = subject_key_of(subject);
    if rec.value_tag == 0 {
        Ok((sk, rec.key, PropertyValue::Boolean(rec.scalar != 0)))
    } else if rec.value_tag == 1 {
        Ok((sk, rec.key, PropertyValue::Integer(rec.scalar as i64)))
    } else if rec.value_tag == 2 {
        let end: u64 = rec.text_off as u64 + rec.text_len as u64;
        if end > text.len() as u64 {
            return Err(DbError::Storage(StorageError::invalid_store("base property text out of bounds")));
        }
        let bytes = vstd::slice::slice_subrange(text, rec.text_off as usize, end as usize);
        match crate::overlay::log::utf8_string(bytes) {
            Some(s) => Ok((sk, rec.key, PropertyValue::Text(s))),
            None => Err(DbError::Storage(StorageError::invalid_store("base property text is not UTF-8"))),
        }
    } else {
        Err(DbError::Storage(StorageError::invalid_store("base property value tag out of range")))
    }
}

/// Decodes the base property records into values by subject key, then key.
pub fn decode_properties(recs: &[PropertyWire], text: &[u8]) -> (r: Result<
    BTreeMap<(u32, u64), BTreeMap<u64, PropertyValue>>,
    DbError,
>)
    ensures
        match spec_decode_properties(recs@, text@) {
            Ok(m) => r matches Ok(x) && flatten_values(x@) == m,
            Err(e) => r == Err::<BTreeMap<(u32, u64), BTreeMap<u64, PropertyValue>>, DbError>(e),
        },
{
    let mut out: BTreeMap<(u32, u64), BTreeMap<u64, PropertyValue>> = BTreeMap::new();
    let mut i: usize = 0;
    proof {
        assert(recs@.take(0) =~= Seq::<PropertyWire>::empty());
        assert(flatten_values(out@) =~= Map::<((u32, u64), u64), ValueView>::empty());
    }
    while i < recs.len()
        invariant
            i <= recs@.len(),
            spec_decode_properties(recs@.take(i as int), text@) == Ok::<
                Map<((u32, u64), u64), ValueView>,
                DbError,
            >(flatten_values(out@)),
        decreases recs@.len() - i,
    {
        let rec = recs[i];
        proof {
            assert(recs@.take(i + 1).drop_last() =~= recs@.take(i as int));
            assert(recs@.take(i + 1).last() == rec);
        }
        match decode_property(&rec, text) {
            Err(e) => {
                proof {
                    lemma_properties_error_stays(recs@, text@, i + 1);
                }
                return Err(e);
            },
            Ok((sk, key, value)) => {
                let ghost before = flatten_values(out@);
                let ghost v = value@;
                let mut values = match out.remove(&sk) {
                    Some(m) => m,
                    None => BTreeMap::new(),
                };
                values.insert(key, value);
                out.insert(sk, values);
                proof {
                    assert(flatten_values(out@) =~= before.insert((sk, key), v));
                }
            },
        }
        i = i + 1;
    }
    proof {
        assert(recs@.take(i as int) =~= recs@);
    }
    Ok(out)
}

} // verus!
