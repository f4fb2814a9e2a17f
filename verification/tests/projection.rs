use std::collections::BTreeSet;

use oxgraph_db::catalog::{GraphProjectionDefinition, HypergraphProjectionDefinition, ProjectionDefinition};
use oxgraph_db::error::DbError;
use oxgraph_db::id::{ElementId, IncidenceId, RelationId, RoleId};
use oxgraph_db::projection::{
    GraphProjection, HypergraphProjection, ProjectionElementId, ProjectionIncidenceId, ProjectionRelationId,
};
use oxgraph_db::state::{DatabaseState, PropertySubject};

/// Three elements in a directed chain 1 -> 2 -> 3 plus a back edge 3 -> 1,
/// all relations of type `next`, and one untyped relation.
fn chain() -> (DatabaseState, RoleId, RoleId) {
    let mut state = DatabaseState::empty();
    let src = state.register_role("src".to_owned()).expect("role");
    let dst = state.register_role("dst".to_owned()).expect("role");
    let next = state.register_relation_type("next".to_owned()).expect("type");
    let e: Vec<ElementId> = (0..3).map(|_| state.create_element().expect("element")).collect();
    for (a, b) in [(0usize, 1usize), (1, 2), (2, 0)] {
        let r = state.create_relation().expect("relation");
        state.set_relation_type(r, next).expect("type");
        state.create_incidence(r, e[a], src).expect("src");
        state.create_incidence(r, e[b], dst).expect("dst");
    }
    let untyped = state.create_relation().expect("relation");
    state.create_incidence(untyped, e[0], src).expect("src");
    (state, src, dst)
}

fn graph_definition(types: &[u64], src: RoleId, dst: RoleId) -> GraphProjectionDefinition {
    GraphProjectionDefinition {
        name: "g".to_owned(),
        relation_types: types.iter().copied().collect::<BTreeSet<u64>>(),
        source_role: src,
        target_role: dst,
    }
}

#[test]
fn projection_ids_roundtrip() {
    assert_eq!(ProjectionElementId::new(3).get(), 3);
    assert_eq!(ProjectionRelationId::new(4).get(), 4);
    assert_eq!(ProjectionIncidenceId::new(5).get(), 5);
}

#[test]
fn graph_projection_builds_csr_and_csc() {
    let (state, src, dst) = chain();
    let graph = GraphProjection::from_state(&state, graph_definition(&[1], src, dst)).expect("graph");
    assert_eq!(graph.element_count(), 3);
    assert_eq!(graph.relation_count(), 3);
    let l1 = graph.local_element_id(ElementId::new(1)).expect("local");
    assert_eq!(graph.canonical_element_id(l1), ElementId::new(1));
    let out = graph.outgoing_edges(l1);
    assert_eq!(out.len(), 1);
    assert_eq!(graph.canonical_relation_id(out[0]), RelationId::new(1));
    let succ = graph.element_successors(l1);
    assert_eq!(graph.canonical_element_id(succ[0]), ElementId::new(2));
    let pred = graph.element_predecessors(l1);
    assert_eq!(graph.canonical_element_id(pred[0]), ElementId::new(3));
    assert_eq!(graph.in_degree(l1), 1);
    assert_eq!(graph.out_degree(l1), 1);
    assert!(graph.local_element_id(ElementId::new(99)).is_none());
    assert!(graph.local_relation_id(RelationId::new(4)).is_none());
    assert_eq!(
        graph.subjects(),
        vec![
            PropertySubject::Element(ElementId::new(1)),
            PropertySubject::Element(ElementId::new(2)),
            PropertySubject::Element(ElementId::new(3)),
            PropertySubject::Relation(RelationId::new(1)),
            PropertySubject::Relation(RelationId::new(2)),
            PropertySubject::Relation(RelationId::new(3)),
        ]
    );
}

#[test]
fn graph_projection_rejects_relation_without_target() {
    let (state, src, dst) = chain();
    let result = GraphProjection::from_state(&state, graph_definition(&[], src, dst));
    assert_eq!(
        result.err(),
        Some(DbError::InvalidProjection { reason: "selected graph relation lacks source or target endpoint" })
    );
}

#[test]
fn graph_projection_rejects_duplicate_source() {
    let mut state = DatabaseState::empty();
    let src = state.register_role("src".to_owned()).expect("role");
    let dst = state.register_role("dst".to_owned()).expect("role");
    let a = state.create_element().expect("a");
    let b = state.create_element().expect("b");
    let r = state.create_relation().expect("r");
    state.create_incidence(r, a, src).expect("i1");
    state.create_incidence(r, b, src).expect("i2");
    let result = GraphProjection::from_state(&state, graph_definition(&[], src, dst));
    assert_eq!(
        result.err(),
        Some(DbError::InvalidProjection { reason: "selected graph relation has duplicate source endpoint" })
    );
}

#[test]
fn hypergraph_projection_groups_participants() {
    let mut state = DatabaseState::empty();
    let src = state.register_role("src".to_owned()).expect("role");
    let dst = state.register_role("dst".to_owned()).expect("role");
    let e: Vec<ElementId> = (0..4).map(|_| state.create_element().expect("element")).collect();
    let h1 = state.create_relation().expect("h1");
    state.create_incidence(h1, e[0], src).expect("i");
    state.create_incidence(h1, e[1], src).expect("i");
    state.create_incidence(h1, e[2], dst).expect("i");
    let h2 = state.create_relation().expect("h2");
    state.create_incidence(h2, e[2], src).expect("i");
    state.create_incidence(h2, e[3], dst).expect("i");
    state.create_incidence(h2, e[0], dst).expect("i");
    let definition = HypergraphProjectionDefinition {
        name: "h".to_owned(),
        relation_types: BTreeSet::new(),
        source_roles: [src.get()].into_iter().collect(),
        target_roles: [dst.get()].into_iter().collect(),
    };
    let hyper = HypergraphProjection::from_state(&state, definition).expect("hypergraph");
    assert_eq!(hyper.element_count(), 4);
    assert_eq!(hyper.relation_count(), 2);
    assert_eq!(hyper.incidence_count(), 6);
    let v0 = hyper.local_element_id(e[0]).expect("v0");
    let succ: Vec<ElementId> = hyper.element_successors(v0).into_iter().map(|v| hyper.canonical_element_id(v)).collect();
    assert_eq!(succ, vec![e[2]]);
    let pred: Vec<ElementId> = hyper.element_predecessors(v0).into_iter().map(|v| hyper.canonical_element_id(v)).collect();
    assert_eq!(pred, vec![e[2]]);
    let out: Vec<RelationId> = hyper.outgoing_hyperedges(v0).into_iter().map(|h| hyper.canonical_relation_id(h)).collect();
    assert_eq!(out, vec![h1]);
    let inc: Vec<RelationId> = hyper.incoming_hyperedges(v0).into_iter().map(|h| hyper.canonical_relation_id(h)).collect();
    assert_eq!(inc, vec![h2]);
    let first = hyper.local_relation_id(h1).expect("h1");
    assert_eq!(hyper.source_participants(first).len(), 2);
    assert_eq!(hyper.target_participants(first).len(), 1);
    assert_eq!(hyper.relation_incidence_count(first), 3);
    let mut participants: Vec<ElementId> = Vec::new();
    let mut walk = hyper.hyperedge_participants(first);
    while let Some(v) = walk.next() {
        participants.push(hyper.canonical_element_id(v));
    }
    assert_eq!(participants, vec![e[0], e[1], e[2]]);
    assert_eq!(walk.next(), None);
    let mut incident: Vec<RelationId> = Vec::new();
    let mut walk = hyper.incident_hyperedges(v0);
    while let Some(h) = walk.next() {
        incident.push(hyper.canonical_relation_id(h));
    }
    assert_eq!(incident, vec![h1, h2]);
    let i0 = hyper.local_incidence_id(IncidenceId::new(1)).expect("incidence");
    assert_eq!(hyper.canonical_incidence_id(i0), IncidenceId::new(1));
    assert_eq!(hyper.incidence_role(i0), src);
    assert_eq!(hyper.subjects().len(), 4 + 2 + 6);
}

#[test]
fn hypergraph_projection_requires_roles() {
    let (state, _src, _dst) = chain();
    let definition = HypergraphProjectionDefinition {
        name: "h".to_owned(),
        relation_types: BTreeSet::new(),
        source_roles: BTreeSet::new(),
        target_roles: BTreeSet::new(),
    };
    assert_eq!(
        HypergraphProjection::from_state(&state, definition).err(),
        Some(DbError::InvalidProjection { reason: "hypergraph projection requires non-empty source and target roles" })
    );
    let _unused = ProjectionDefinition::Graph(graph_definition(&[], RoleId::new(1), RoleId::new(2)));
}
