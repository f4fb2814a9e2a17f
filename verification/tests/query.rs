use std::collections::BTreeSet;

use oxgraph_db::catalog::{GraphProjectionDefinition, ProjectionDefinition, PropertyFamily};
use oxgraph_db::error::DbError;
use oxgraph_db::id::{ElementId, ProjectionId, RelationId};
use oxgraph_db::query::{parse_cypher, parse_oxql, LogicalOp, PreparedQuery, QueryLanguage, QueryValue};
use oxgraph_db::state::{DatabaseState, PropertySubject};
use oxgraph_db::traversal::{Direction, Walk};
use oxgraph_db::value::{PropertyType, PropertyValue};

fn people() -> DatabaseState {
    let mut state = DatabaseState::empty();
    let person = state.register_label("Person".to_owned()).expect("label");
    let knows = state.register_relation_type("knows".to_owned()).expect("type");
    let from = state.register_role("from".to_owned()).expect("role");
    let to = state.register_role("to".to_owned()).expect("role");
    let name = state
        .register_property_key("name".to_owned(), PropertyFamily::Element, PropertyType::Text)
        .expect("key");
    let a = state.create_element().expect("a");
    let b = state.create_element().expect("b");
    let c = state.create_element().expect("c");
    state.add_element_label(a, person).expect("label");
    state.add_element_label(c, person).expect("label");
    state.set_property(PropertySubject::Element(b), name, PropertyValue::from_str_slice("Bo")).expect("name");
    for (x, y) in [(a, b), (b, c)] {
        let r = state.create_relation().expect("relation");
        state.set_relation_type(r, knows).expect("type");
        state.create_incidence(r, x, from).expect("from");
        state.create_incidence(r, y, to).expect("to");
    }
    let definition = GraphProjectionDefinition {
        name: "social".to_owned(),
        relation_types: BTreeSet::new(),
        source_role: from,
        target_role: to,
    };
    state.define_projection(ProjectionDefinition::Graph(definition)).expect("projection");
    state
}

fn run(language: QueryLanguage, text: &str, state: &DatabaseState) -> Vec<Vec<QueryValue>> {
    let prepared = PreparedQuery::prepare(language, text, state).expect("prepare");
    let result = prepared.execute(state).expect("execute");
    result.rows().iter().map(|row| row.values.clone()).collect()
}

fn element(id: u64) -> QueryValue {
    QueryValue::Element(ElementId::new(id))
}

#[test]
fn oxql_parses_case_insensitive_keywords() {
    assert_eq!(parse_oxql("match ELEMENTS"), Ok(LogicalOp::ElementScan));
    assert_eq!(parse_oxql("catalog"), Ok(LogicalOp::CatalogScan));
    assert_eq!(
        parse_oxql("MATCH elements HAS label Person"),
        Ok(LogicalOp::ElementLabelScan { label: "Person".to_owned() })
    );
    assert_eq!(
        parse_oxql("GRAPH social WALK FROM 1 DEPTH 2 direction both LIMIT 5"),
        Ok(LogicalOp::GraphWalk {
            projection: "social".to_owned(),
            element: "1".to_owned(),
            options: Walk { max_depth: 2, direction: Direction::Both, limit: 5, include_start: false },
        })
    );
    assert_eq!(
        parse_oxql("GRAPH social WALK FROM 1 DEPTH 2 LIMIT 5 LIMIT 6"),
        Err(DbError::Unsupported { reason: "walk limit specified twice".to_owned() })
    );
    assert_eq!(
        parse_oxql("GRAPH social WALK FROM 1 DEPTH x"),
        Err(DbError::Unsupported { reason: "walk depth must be an integer".to_owned() })
    );
    assert_eq!(
        parse_oxql("GRAPH social WALK FROM 1 DEPTH 1 LIMIT"),
        Err(DbError::Unsupported { reason: "walk option requires a value".to_owned() })
    );
    assert_eq!(
        parse_oxql("SELECT *"),
        Err(DbError::Unsupported { reason: "unsupported OxQL profile query".to_owned() })
    );
}

#[test]
fn cypher_profile_shapes() {
    assert_eq!(parse_cypher("MATCH (n) RETURN n"), Ok(LogicalOp::ElementScan));
    assert_eq!(parse_cypher("MATCH (n)-[r]->(m) RETURN n,r,m"), Ok(LogicalOp::CypherDirectedTriples));
    assert_eq!(
        parse_cypher("MATCH (n:Person) RETURN n"),
        Ok(LogicalOp::ElementLabelScan { label: "Person".to_owned() })
    );
    assert_eq!(
        parse_cypher("MATCH (n) RETURN m"),
        Err(DbError::Unsupported { reason: "unsupported Cypher profile query".to_owned() })
    );
}

#[test]
fn scans_return_rows_in_id_order() {
    let state = people();
    assert_eq!(run(QueryLanguage::Oxql, " MATCH ELEMENTS ", &state), vec![vec![element(1)], vec![element(2)], vec![element(3)]]);
    assert_eq!(
        run(QueryLanguage::Oxql, "MATCH RELATIONS", &state),
        vec![vec![QueryValue::Relation(RelationId::new(1))], vec![QueryValue::Relation(RelationId::new(2))]]
    );
    assert_eq!(run(QueryLanguage::Oxql, "MATCH INCIDENCES", &state).len(), 4);
    assert_eq!(run(QueryLanguage::Cypher, "MATCH (n:Person) RETURN n", &state), vec![vec![element(1)], vec![element(3)]]);
    assert_eq!(run(QueryLanguage::Oxql, "MATCH RELATIONS TYPE knows", &state).len(), 2);
    assert_eq!(run(QueryLanguage::Oxql, "MATCH ELEMENTS WHERE name = 'Bo'", &state), vec![vec![element(2)]]);
    assert_eq!(
        run(QueryLanguage::Oxql, "CATALOG", &state),
        vec![vec![QueryValue::Projection(ProjectionId::new(1)), QueryValue::Text("social".to_owned())]]
    );
}

#[test]
fn graph_queries_walk_and_triples() {
    let state = people();
    assert_eq!(run(QueryLanguage::Oxql, "GRAPH social NEIGHBORS 1", &state), vec![vec![element(2)]]);
    assert_eq!(
        run(QueryLanguage::Oxql, "GRAPH social WALK FROM 1 DEPTH 5", &state),
        vec![vec![element(2)], vec![element(3)]]
    );
    assert_eq!(
        run(QueryLanguage::Cypher, "MATCH (n)-[r]->(m) RETURN n,r,m", &state),
        vec![
            vec![element(1), QueryValue::Relation(RelationId::new(1)), element(2)],
            vec![element(2), QueryValue::Relation(RelationId::new(2)), element(3)],
        ]
    );
}

#[test]
fn binding_errors_and_explanations() {
    let state = people();
    assert_eq!(
        PreparedQuery::prepare(QueryLanguage::Oxql, "   ", &state),
        Err(DbError::EmptyQuery)
    );
    assert_eq!(
        PreparedQuery::prepare(QueryLanguage::Oxql, "MATCH ELEMENTS HAS LABEL Robot", &state),
        Err(DbError::Unsupported { reason: "unknown label Robot".to_owned() })
    );
    assert_eq!(
        PreparedQuery::prepare(QueryLanguage::Oxql, "MATCH ELEMENTS WHERE name = 3", &state),
        Err(DbError::PropertyTypeMismatch { expected: PropertyType::Text, actual: PropertyType::Integer })
    );
    assert_eq!(
        PreparedQuery::prepare(QueryLanguage::Oxql, "GRAPH nowhere NEIGHBORS 1", &state),
        Err(DbError::Unsupported { reason: "unknown projection nowhere".to_owned() })
    );
    assert_eq!(
        PreparedQuery::prepare(QueryLanguage::Oxql, "GRAPH social NEIGHBORS x", &state),
        Err(DbError::Unsupported { reason: "element id must be an integer".to_owned() })
    );
    let walk = PreparedQuery::prepare(QueryLanguage::Oxql, "GRAPH social WALK FROM 1 DEPTH 2 DIRECTION incoming LIMIT 9", &state)
        .expect("prepare");
    assert_eq!(walk.language(), QueryLanguage::Oxql);
    assert_eq!(walk.text(), "GRAPH social WALK FROM 1 DEPTH 2 DIRECTION incoming LIMIT 9");
    assert_eq!(walk.explain(), "oxql graph projection 1 walk from 1 depth 2 direction Incoming limit 9");
    let eq = PreparedQuery::prepare(QueryLanguage::Oxql, "MATCH ELEMENTS WHERE name = \"Bo\"", &state).expect("prepare");
    assert_eq!(eq.explain(), "oxql property equality lookup elements name=Bo");
    let scan = PreparedQuery::prepare(QueryLanguage::Cypher, "MATCH (n) RETURN n", &state).expect("prepare");
    assert_eq!(scan.explain(), "oxql scan elements");
    assert_eq!(
        PreparedQuery::prepare(QueryLanguage::Cypher, "MATCH (n)-[r]->(m) RETURN n,r,m", &DatabaseState::empty()),
        Err(DbError::Unsupported { reason: "Cypher profile requires a graph projection".to_owned() })
    );
    let missing = PreparedQuery::prepare(QueryLanguage::Oxql, "GRAPH social NEIGHBORS 42", &state).expect("prepare");
    assert_eq!(missing.execute(&state), Err(DbError::UnknownElement { id: ElementId::new(42) }));
}
