use std::collections::BTreeSet;

use oxgraph_db::catalog::GraphProjectionDefinition;
use oxgraph_db::error::DbError;
use oxgraph_db::id::{ElementId, RoleId};
use oxgraph_db::projection::GraphProjection;
use oxgraph_db::state::DatabaseState;
use oxgraph_db::traversal::{walk_graph_projection, Direction, TraversedNode, Walk};

/// A directed path 1 -> 2 -> 3 -> 4 plus 1 -> 3.
fn path() -> GraphProjection {
    let mut state = DatabaseState::empty();
    let src = state.register_role("src".to_owned()).expect("role");
    let dst = state.register_role("dst".to_owned()).expect("role");
    let e: Vec<ElementId> = (0..4).map(|_| state.create_element().expect("element")).collect();
    for (a, b) in [(0usize, 1usize), (1, 2), (2, 3), (0, 2)] {
        let r = state.create_relation().expect("relation");
        state.create_incidence(r, e[a], src).expect("src");
        state.create_incidence(r, e[b], dst).expect("dst");
    }
    let definition = GraphProjectionDefinition {
        name: "g".to_owned(),
        relation_types: BTreeSet::new(),
        source_role: src,
        target_role: dst,
    };
    GraphProjection::from_state(&state, definition).expect("graph")
}

fn node(id: u64, depth: usize) -> TraversedNode {
    TraversedNode { element: ElementId::new(id), depth }
}

#[test]
fn default_walk_is_one_outgoing_hop() {
    let w = Walk::default();
    assert_eq!(w.max_depth, 1);
    assert_eq!(w.direction, Direction::Outgoing);
    assert_eq!(w.limit, usize::MAX);
    assert!(!w.include_start);
    assert_eq!(Direction::default(), Direction::Outgoing);
}

#[test]
fn walk_discovers_levels_in_order() {
    let graph = path();
    let walk = Walk { max_depth: 3, direction: Direction::Outgoing, limit: usize::MAX, include_start: true };
    let sg = walk_graph_projection(&graph, &[ElementId::new(1)], walk).expect("walk");
    assert_eq!(sg.nodes(), &[node(1, 0), node(2, 1), node(3, 1), node(4, 2)]);
    let keys: Vec<(u64, u64, u64)> =
        sg.edges().iter().map(|e| (e.source.get(), e.target.get(), e.relation.get())).collect();
    assert_eq!(keys, vec![(1, 2, 1), (1, 3, 4), (2, 3, 2), (3, 4, 3)]);
}

#[test]
fn walk_respects_depth_limit_and_seed_exclusion() {
    let graph = path();
    let walk = Walk { max_depth: 1, direction: Direction::Outgoing, limit: 1, include_start: false };
    let sg = walk_graph_projection(&graph, &[ElementId::new(1)], walk).expect("walk");
    assert_eq!(sg.nodes(), &[node(2, 1)]);
    assert!(sg.edges().is_empty());
    let wider = Walk { max_depth: 1, direction: Direction::Outgoing, limit: usize::MAX, include_start: false };
    let sg = walk_graph_projection(&graph, &[ElementId::new(1)], wider).expect("walk");
    assert_eq!(sg.nodes(), &[node(2, 1), node(3, 1)]);
    let keys: Vec<(u64, u64)> = sg.edges().iter().map(|e| (e.source.get(), e.target.get())).collect();
    assert_eq!(keys, vec![(2, 3)]);
}

#[test]
fn walk_incoming_and_both() {
    let graph = path();
    let incoming = Walk { max_depth: 5, direction: Direction::Incoming, limit: usize::MAX, include_start: false };
    let sg = walk_graph_projection(&graph, &[ElementId::new(4)], incoming).expect("walk");
    assert_eq!(sg.nodes(), &[node(3, 1), node(1, 2), node(2, 2)]);
    let both = Walk { max_depth: 1, direction: Direction::Both, limit: usize::MAX, include_start: false };
    let sg = walk_graph_projection(&graph, &[ElementId::new(3)], both).expect("walk");
    assert_eq!(sg.nodes(), &[node(4, 1), node(1, 1), node(2, 1)]);
}

#[test]
fn walk_edge_cases() {
    let graph = path();
    let walk = Walk::default();
    let empty = walk_graph_projection(&graph, &[], walk).expect("walk");
    assert!(empty.nodes().is_empty() && empty.edges().is_empty());
    let zero = Walk { limit: 0, ..Walk::default() };
    let none = walk_graph_projection(&graph, &[ElementId::new(1)], zero).expect("walk");
    assert!(none.nodes().is_empty() && none.edges().is_empty());
    assert_eq!(
        walk_graph_projection(&graph, &[ElementId::new(77)], zero),
        Err(DbError::UnknownElement { id: ElementId::new(77) })
    );
    assert_eq!(
        walk_graph_projection(&graph, &[ElementId::new(77)], walk),
        Err(DbError::UnknownElement { id: ElementId::new(77) })
    );
    let _ = RoleId::new(1);
}
