//! Projection and index definition-body codec.
//!
//! A catalog definition body is a run of `u64` words with a `u32` kind
//! discriminant. An id set is written as its length followed by its members.
use crate::catalog::{
    GraphProjectionDefinition, HypergraphProjectionDefinition, IndexDefinition, IndexView,
    ProjectionDefinition, ProjectionView,
};
use crate::id::{LabelId, ProjectionId, PropertyKeyId, RelationTypeId, RoleId};
use std::collections::BTreeSet;
use vstd::prelude::*;

verus! {

/// Definition-body discriminant for a binary graph projection.
pub const DEF_PROJECTION_GRAPH: u32 = 0;
/// Definition-body discriminant for a hypergraph projection.
pub const DEF_PROJECTION_HYPER: u32 = 1;
/// Definition-body discriminant for a label membership index.
pub const DEF_INDEX_LABEL: u32 = 0;
/// Definition-body discriminant for a relation-type membership index.
pub const DEF_INDEX_RELATION_TYPE: u32 = 1;
/// Definition-body discriminant for a single-key equality index.
pub const DEF_INDEX_PROPERTY_EQUALITY: u32 = 2;
/// Definition-body discriminant for a single-key range index.
pub const DEF_INDEX_PROPERTY_RANGE: u32 = 3;
/// Definition-body discriminant for a composite equality index.
pub const DEF_INDEX_COMPOSITE_EQUALITY: u32 = 4;
/// Definition-body discriminant for a projection-materialization index.
pub const DEF_INDEX_PROJECTION: u32 = 5;

/// A definition-body decode failure.
#[derive(Clone, Copy, Debug)]
pub struct DefDecodeError {
    /// Static description of the malformation.
    pub reason: &'static str,
}

/// Whether `s` lists the members of `set` once each.
pub open spec fn lists_set(s: Seq<u64>, set: Set<u64>) -> bool {
    &&& s.to_set() == set
    &&& s.no_duplicates()
    &&& s.len() == set.len()
}

/// Lists the members of an id set in iteration order.
pub fn set_members(ids: &BTreeSet<u64>) -> (s: Vec<u64>)
    ensures
        lists_set(s@, ids@),
{
    let mut out: Vec<u64> = Vec::new();
    let ghost listing = vstd::std_specs::iter::IteratorSpec::remaining(&vstd::std_specs::btree::spec_btree_keys_iter(ids)).unref();
    for id in it: ids.iter()
        invariant
            it.seq() == vstd::std_specs::iter::IteratorSpec::remaining(&vstd::std_specs::btree::spec_btree_keys_iter(ids)),
            out@ == it.seq().take(it.index()).unref(),
    {
        proof {
            assert(it.seq().take(it.index() + 1).unref() =~= it.seq().take(it.index()).unref().push(*id));
        }
        out.push(*id);
    }
    proof {
        assert(out@ =~= listing);
    }
    out
}

/// Pushes a length-prefixed id set into a word run.
fn push_id_set(words: &mut Vec<u64>, ids: &BTreeSet<u64>)
    ensures
        exists|s: Seq<u64>|
            lists_set(s, ids@) && final(words)@ == old(words)@.push(ids@.len() as u64) + s,
{
    let mut members = set_members(ids);
    words.push(members.len() as u64);
    words.append(&mut members);
}

/// Collects a word run into an id set.
pub fn set_from_words(words: &[u64]) -> (set: BTreeSet<u64>)
    ensures
        set@ == words@.to_set(),
{
    let mut set: BTreeSet<u64> = BTreeSet::new();
    let mut i: usize = 0;
    while i < words.len()
        invariant
            i <= words@.len(),
            set@ == words@.subrange(0, i as int).to_set(),
        decreases words@.len() - i,
    {
        proof {
            assert(words@.subrange(0, i as int + 1) =~= words@.subrange(0, i as int).push(words@[i as int]));
            words@.subrange(0, i as int).lemma_push_to_set_commute(words@[i as int]);
        }
        set.insert(words[i]);
        i = i + 1;
    }
    proof {
        assert(words@.subrange(0, i as int) =~= words@);
    }
    set
}

/// The id set stored at `cursor` and the cursor past it, or the reason the
/// run is malformed.
pub open spec fn spec_read_id_set(words: Seq<u64>, cursor: int) -> Result<(Seq<u64>, int), &'static str> {
    if cursor >= words.len() {
        Err("def missing id-set length")
    } else {
        let count = words[cursor] as int;
        if count > usize::MAX {
            Err("def id-set length overflow")
        } else if cursor + 1 + count > usize::MAX {
            Err("def id-set overflow")
        } else if cursor + 1 + count > words.len() {
            Err("def id-set out of bounds")
        } else {
            Ok((words.subrange(cursor + 1, cursor + 1 + count), cursor + 1 + count))
        }
    }
}

/// Reads a length-prefixed id set at `cursor`, advancing it past the set.
fn read_id_set(words: &[u64], cursor: &mut usize) -> (r: Result<Vec<u64>, DefDecodeError>)
    requires
        *old(cursor) <= words@.len(),
    ensures
        match (r, spec_read_id_set(words@, *old(cursor) as int)) {
            (Ok(ids), Ok((s, next))) => ids@ == s && *final(cursor) as int == next,
            (Err(e), Err(reason)) => e.reason == reason,
            _ => false,
        },
{
    let n = words.len();
    if *cursor >= n {
        return Err(DefDecodeError { reason: "def missing id-set length" });
    }
    let raw = words[*cursor];
    if raw > usize::MAX as u64 {
        return Err(DefDecodeError { reason: "def id-set length overflow" });
    }
    let count = raw as usize;
    let start = *cursor + 1;
    if count > usize::MAX - start {
        return Err(DefDecodeError { reason: "def id-set overflow" });
    }
    let end = start + count;
    if end > n {
        return Err(DefDecodeError { reason: "def id-set out of bounds" });
    }
    *cursor = end;
    Ok(vstd::slice::slice_to_vec(vstd::slice::slice_subrange(words, start, end)))
}

/// The word body of a projection definition: a graph writes its two roles
/// then its relation-type set; a hypergraph writes its source-role,
/// target-role, and relation-type sets. Each set is a length then members.
pub open spec fn projection_body_ok(definition: ProjectionDefinition, kind: u32, words: Seq<u64>) -> bool {
    match definition {
        ProjectionDefinition::Graph(g) => kind == DEF_PROJECTION_GRAPH && exists|rt: Seq<u64>|
            lists_set(rt, g.relation_types@) && words == seq![g.source_role.0, g.target_role.0, g.relation_types@.len() as u64] + rt,
        ProjectionDefinition::Hypergraph(h) => kind == DEF_PROJECTION_HYPER && exists|
            src: Seq<u64>,
            tgt: Seq<u64>,
            rt: Seq<u64>,
        |
            lists_set(src, h.source_roles@) && lists_set(tgt, h.target_roles@) && lists_set(
                rt,
                h.relation_types@,
            ) && words == seq![h.source_roles@.len() as u64] + src + seq![
                h.target_roles@.len() as u64,
            ] + tgt + seq![h.relation_types@.len() as u64] + rt,
    }
}

/// Encodes a projection definition body, returning `(discriminant, words)`.
pub fn encode_projection_body(definition: &ProjectionDefinition) -> (out: (u32, Vec<u64>))
    ensures
        projection_body_ok(*definition, out.0, out.1@),
{
    let mut words: Vec<u64> = Vec::new();
    match definition {
        ProjectionDefinition::Graph(graph) => {
            words.push(graph.source_role.get());
            words.push(graph.target_role.get());
            let ghost w0 = words@;
            push_id_set(&mut words, &graph.relation_types);
            proof {
                let rt = choose|s: Seq<u64>|
                    lists_set(s, graph.relation_types@) && words@ == w0.push(graph.relation_types@.len() as u64) + s;
                assert(w0.push(graph.relation_types@.len() as u64) =~= seq![graph.source_role.0, graph.target_role.0, graph.relation_types@.len() as u64]);
                assert(words@ == seq![graph.source_role.0, graph.target_role.0, graph.relation_types@.len() as u64] + rt);
            }
            (DEF_PROJECTION_GRAPH, words)
        },
        ProjectionDefinition::Hypergraph(hyper) => {
            push_id_set(&mut words, &hyper.source_roles);
            let ghost w1 = words@;
            push_id_set(&mut words, &hyper.target_roles);
            let ghost w2 = words@;
            push_id_set(&mut words, &hyper.relation_types);
            proof {
                let src = choose|s: Seq<u64>|
                    lists_set(s, hyper.source_roles@) && w1 == Seq::<u64>::empty().push(hyper.source_roles@.len() as u64) + s;
                let tgt = choose|s: Seq<u64>|
                    lists_set(s, hyper.target_roles@) && w2 == w1.push(hyper.target_roles@.len() as u64) + s;
                let rt = choose|s: Seq<u64>|
                    lists_set(s, hyper.relation_types@) && words@ == w2.push(hyper.relation_types@.len() as u64) + s;
                assert(words@ =~= seq![hyper.source_roles@.len() as u64] + src + seq![
                    hyper.target_roles@.len() as u64,
                ] + tgt + seq![hyper.relation_types@.len() as u64] + rt);
            }
            (DEF_PROJECTION_HYPER, words)
        },
    }
}

/// The projection a `(discriminant, name, words)` body decodes to, or the
/// reason it is malformed.
pub open spec fn spec_decode_projection(kind: u32, name: Seq<char>, words: Seq<u64>) -> Result<ProjectionView, &'static str> {
    if kind == DEF_PROJECTION_GRAPH {
        if words.len() < 1 {
            Err("graph def missing source role")
        } else if words.len() < 2 {
            Err("graph def missing target role")
        } else {
            match spec_read_id_set(words, 2) {
                Err(reason) => Err(reason),
                Ok((rt, _next)) => Ok(
                    ProjectionView::Graph {
                        name,
                        relation_types: rt.to_set(),
                        source_role: words[0],
                        target_role: words[1],
                    },
                ),
            }
        }
    } else if kind == DEF_PROJECTION_HYPER {
        match spec_read_id_set(words, 0) {
            Err(reason) => Err(reason),
            Ok((src, c1)) => match spec_read_id_set(words, c1) {
                Err(reason) => Err(reason),
                Ok((tgt, c2)) => match spec_read_id_set(words, c2) {
                    Err(reason) => Err(reason),
                    Ok((rt, _next)) => Ok(
                        ProjectionView::Hypergraph {
                            name,
                            relation_types: rt.to_set(),
                            source_roles: src.to_set(),
                            target_roles: tgt.to_set(),
                        },
                    ),
                },
            },
        }
    } else {
        Err("unknown projection definition kind")
    }
}

/// Decodes a projection definition from its discriminant, name, and words.
pub fn decode_projection_body(discriminant: u32, name: String, words: &[u64]) -> (r: Result<
    ProjectionDefinition,
    DefDecodeError,
>)
    ensures
        match r {
            Ok(d) => spec_decode_projection(discriminant, name@, words@) == Ok::<ProjectionView, &'static str>(d@),
            Err(e) => spec_decode_projection(discriminant, name@, words@) == Err::<ProjectionView, &'static str>(e.reason),
        },
{
    let n = words.len();
    if discriminant == DEF_PROJECTION_GRAPH {
        if n < 1 {
            return Err(DefDecodeError { reason: "graph def missing source role" });
        }
        if n < 2 {
            return Err(DefDecodeError { reason: "graph def missing target role" });
        }
        let source_role = words[0];
        let target_role = words[1];
        let mut cursor: usize = 2;
        let relation_types = read_id_set(words, &mut cursor)?;
        Ok(
            ProjectionDefinition::Graph(
                GraphProjectionDefinition {
                    name,
                    relation_types: set_from_words(relation_types.as_slice()),
                    source_role: RoleId::new(source_role),
                    target_role: RoleId::new(target_role),
                },
            ),
        )
    } else if discriminant == DEF_PROJECTION_HYPER {
        let mut cursor: usize = 0;
        let source_roles = read_id_set(words, &mut cursor)?;
        let target_roles = read_id_set(words, &mut cursor)?;
        let relation_types = read_id_set(words, &mut cursor)?;
        Ok(
            ProjectionDefinition::Hypergraph(
                HypergraphProjectionDefinition {
                    name,
                    relation_types: set_from_words(relation_types.as_slice()),
                    source_roles: set_from_words(source_roles.as_slice()),
                    target_roles: set_from_words(target_roles.as_slice()),
                },
            ),
        )
    } else {
        Err(DefDecodeError { reason: "unknown projection definition kind" })
    }
}

/// The `(discriminant, words)` body of an index definition.
pub open spec fn spec_index_body(definition: IndexView) -> (u32, Seq<u64>) {
    match definition {
        IndexView::Label(id) => (DEF_INDEX_LABEL, seq![id]),
        IndexView::RelationType(id) => (DEF_INDEX_RELATION_TYPE, seq![id]),
        IndexView::PropertyEquality(id) => (DEF_INDEX_PROPERTY_EQUALITY, seq![id]),
        IndexView::PropertyRange(id) => (DEF_INDEX_PROPERTY_RANGE, seq![id]),
        IndexView::CompositeEquality(keys) => (DEF_INDEX_COMPOSITE_EQUALITY, keys),
        IndexView::Projection(id) => (DEF_INDEX_PROJECTION, seq![id]),
    }
}

/// Encodes an index definition body, returning `(discriminant, words)`.
pub fn encode_index_body(definition: &IndexDefinition) -> (out: (u32, Vec<u64>))
    ensures
        (out.0, out.1@) == spec_index_body(definition@),
{
    match definition {
        IndexDefinition::Label { label } => (DEF_INDEX_LABEL, vec![label.get()]),
        IndexDefinition::RelationType { relation_type } => (DEF_INDEX_RELATION_TYPE, vec![relation_type.get()]),
        IndexDefinition::PropertyEquality { key } => (DEF_INDEX_PROPERTY_EQUALITY, vec![key.get()]),
        IndexDefinition::PropertyRange { key } => (DEF_INDEX_PROPERTY_RANGE, vec![key.get()]),
        IndexDefinition::CompositeEquality { keys } => {
            let mut words: Vec<u64> = Vec::new();
            let mut i: usize = 0;
            while i < keys.len()
                invariant
                    i <= keys@.len(),
                    words@ == keys@.subrange(0, i as int).map_values(|k: PropertyKeyId| k.0),
                decreases keys@.len() - i,
            {
                proof {
                    assert(keys@.subrange(0, i as int + 1).map_values(|k: PropertyKeyId| k.0) =~= keys@.subrange(0, i as int).map_values(|k: PropertyKeyId| k.0).push(keys@[i as int].0));
                }
                words.push(keys[i].get());
                i = i + 1;
            }
            proof {
                assert(keys@.subrange(0, i as int) =~= keys@);
            }
            (DEF_INDEX_COMPOSITE_EQUALITY, words)
        },
        IndexDefinition::Projection { projection } => (DEF_INDEX_PROJECTION, vec![projection.get()]),
    }
}

/// The index a `(discriminant, words)` body decodes to, or the reason it is
/// malformed.
pub open spec fn spec_decode_index(kind: u32, words: Seq<u64>) -> Result<IndexView, &'static str> {
    if kind == DEF_INDEX_COMPOSITE_EQUALITY {
        Ok(IndexView::CompositeEquality(words))
    } else if kind > DEF_INDEX_PROJECTION {
        Err("unknown index definition kind")
    } else if words.len() == 0 {
        Err("index def missing id")
    } else if kind == DEF_INDEX_LABEL {
        Ok(IndexView::Label(words[0]))
    } else if kind == DEF_INDEX_RELATION_TYPE {
        Ok(IndexView::RelationType(words[0]))
    } else if kind == DEF_INDEX_PROPERTY_EQUALITY {
        Ok(IndexView::PropertyEquality(words[0]))
    } else if kind == DEF_INDEX_PROPERTY_RANGE {
        Ok(IndexView::PropertyRange(words[0]))
    } else {
        Ok(IndexView::Projection(words[0]))
    }
}

/// Decodes an index definition from its discriminant and words.
pub fn decode_index_body(discriminant: u32, words: &[u64]) -> (r: Result<IndexDefinition, DefDecodeError>)
    ensures
        match r {
            Ok(d) => spec_decode_index(discriminant, words@) == Ok::<IndexView, &'static str>(d@),
            Err(e) => spec_decode_index(discriminant, words@) == Err::<IndexView, &'static str>(e.reason),
        },
{
    if discriminant == DEF_INDEX_COMPOSITE_EQUALITY {
        let mut keys: Vec<PropertyKeyId> = Vec::new();
        let mut i: usize = 0;
        while i < words.len()
            invariant
                i <= words@.len(),
                keys@.len() == i,
                forall|j: int| 0 <= j < i ==> (#[trigger] keys@[j]).0 == words@[j],
            decreases words@.len() - i,
        {
            keys.push(PropertyKeyId::new(words[i]));
            i = i + 1;
        }
        proof {
            assert(keys@.map_values(|k: PropertyKeyId| k.0) =~= words@);
        }
        return Ok(IndexDefinition::CompositeEquality { keys });
    }
    if discriminant > DEF_INDEX_PROJECTION {
        return Err(DefDecodeError { reason: "unknown index definition kind" });
    }
    if words.len() == 0 {
        return Err(DefDecodeError { reason: "index def missing id" });
    }
    let first = words[0];
    if discriminant == DEF_INDEX_LABEL {
        Ok(IndexDefinition::Label { label: LabelId::new(first) })
    } else if discriminant == DEF_INDEX_RELATION_TYPE {
        Ok(IndexDefinition::RelationType { relation_type: RelationTypeId::new(first) })
    } else if discriminant == DEF_INDEX_PROPERTY_EQUALITY {
        Ok(IndexDefinition::PropertyEquality { key: PropertyKeyId::new(first) })
    } else if discriminant == DEF_INDEX_PROPERTY_RANGE {
        Ok(IndexDefinition::PropertyRange { key: PropertyKeyId::new(first) })
    } else {
        Ok(IndexDefinition::Projection { projection: ProjectionId::new(first) })
    }
}

/// Decoding an index body gives the index definition back.
pub proof fn lemma_index_body_roundtrip(definition: IndexView)
    ensures
        spec_decode_index(spec_index_body(definition).0, spec_index_body(definition).1) == Ok::<
            IndexView,
            &'static str,
        >(definition),
{
}

/// Reading a set written as its length then a listing of its members.
proof fn lemma_read_listed_set(words: Seq<u64>, cursor: int, s: Seq<u64>, set: Set<u64>)
    requires
        0 <= cursor,
        cursor + 1 + s.len() <= words.len(),
        words.len() <= usize::MAX,
        lists_set(s, set),
        words[cursor] == set.len() as u64,
        words.subrange(cursor + 1, cursor + 1 + s.len()) == s,
    ensures
        spec_read_id_set(words, cursor) == Ok::<(Seq<u64>, int), &'static str>(
            (s, cursor + 1 + s.len()),
        ),
{
}

/// Decoding a projection body gives the projection definition back.
pub proof fn lemma_projection_body_roundtrip(definition: ProjectionDefinition, kind: u32, words: Seq<u64>)
    requires
        projection_body_ok(definition, kind, words),
        words.len() <= usize::MAX,
    ensures
        spec_decode_projection(kind, projection_name_of(definition), words) == Ok::<ProjectionView, &'static str>(
            definition@,
        ),
{
    match definition {
        ProjectionDefinition::Graph(g) => {
            let rt = choose|rt: Seq<u64>|
                lists_set(rt, g.relation_types@) && words == seq![g.source_role.0, g.target_role.0, g.relation_types@.len() as u64] + rt;
            assert(words.subrange(3, 3 + rt.len() as int) =~= rt);
            lemma_read_listed_set(words, 2, rt, g.relation_types@);
        },
        ProjectionDefinition::Hypergraph(h) => {
            let (src, tgt, rt) = choose|src: Seq<u64>, tgt: Seq<u64>, rt: Seq<u64>|
                lists_set(src, h.source_roles@) && lists_set(tgt, h.target_roles@) && lists_set(
                    rt,
                    h.relation_types@,
                ) && words == seq![h.source_roles@.len() as u64] + src + seq![
                    h.target_roles@.len() as u64,
                ] + tgt + seq![h.relation_types@.len() as u64] + rt;
            let c1: int = 1 + src.len() as int;
            let c2: int = c1 + 1 + tgt.len() as int;
            assert(words.subrange(1, c1) =~= src);
            assert(words.subrange(c1 + 1, c2) =~= tgt);
            assert(words.subrange(c2 + 1, c2 + 1 + rt.len() as int) =~= rt);
            assert(words[c1] == h.target_roles@.len() as u64);
            assert(words[c2] == h.relation_types@.len() as u64);
            lemma_read_listed_set(words, 0, src, h.source_roles@);
            lemma_read_listed_set(words, c1, tgt, h.target_roles@);
            lemma_read_listed_set(words, c2, rt, h.relation_types@);
        },
    }
}

/// The name a projection definition carries, as characters.
pub open spec fn projection_name_of(definition: ProjectionDefinition) -> Seq<char> {
    crate::catalog::projection_name(definition)
}

} // verus!
