//! Native `OxQL` and pinned Cypher-profile query preparation and execution.
//!
//! Parsing turns a query string into a logical operation without touching
//! the catalog; binding resolves its names against the catalog and checks
//! its literals, giving a physical plan; execution runs the plan against the
//! state.
use crate::catalog::{
    key_lookup, named_lookup, projection_entry, projection_lookup, projection_name, ProjectionDefinition,
    ProjectionEntry, PropertyFamily,
};
use crate::error::DbError;
use crate::id::{ElementId, LabelId, ProjectionId, PropertyKeyId, RelationId, RelationTypeId};
use crate::state::{DatabaseState, IncidenceRecord, PropertySubject};
use crate::text::{split_whitespace, split_ws, string_views, unsigned_literal, upper_equals, upper_seq};
use crate::traversal::{Direction, Walk};
use crate::value::{parse_value_token, value_token, PropertyValue, ValueView};
use vstd::prelude::*;

verus! {

/// Query frontend language.
#[derive(Clone, Copy, Debug, PartialEq, Eq, Structural, Hash, PartialOrd, Ord)]
pub enum QueryLanguage {
    /// Native topology-first `OxQL` profile.
    Oxql,
    /// Pinned Cypher language profile over property-graph projections.
    Cypher,
}

/// Query value variants used by `OxQL` and the pinned Cypher profile.
#[derive(Clone, Debug, PartialEq, Eq)]
pub enum QueryValue {
    /// Canonical element id.
    Element(ElementId),
    /// Canonical relation id.
    Relation(RelationId),
    /// Canonical incidence record.
    Incidence(IncidenceRecord),
    /// Property subject.
    Subject(PropertySubject),
    /// Typed property value.
    Property(PropertyValue),
    /// Human-readable text value.
    Text(String),
    /// Projection id.
    Projection(ProjectionId),
}

/// The content of a query value.
pub enum QueryValueView {
    /// Canonical element id.
    Element(u64),
    /// Canonical relation id.
    Relation(u64),
    /// Canonical incidence record.
    Incidence(IncidenceRecord),
    /// Property subject.
    Subject(PropertySubject),
    /// Typed property value.
    Property(ValueView),
    /// Text value.
    Text(Seq<char>),
    /// Projection id.
    Projection(u64),
}

impl View for QueryValue {
    type V = QueryValueView;

    open spec fn view(&self) -> QueryValueView {
        match self {
            QueryValue::Element(id) => QueryValueView::Element(id.0),
            QueryValue::Relation(id) => QueryValueView::Relation(id.0),
            QueryValue::Incidence(r) => QueryValueView::Incidence(*r),
            QueryValue::Subject(s) => QueryValueView::Subject(*s),
            QueryValue::Property(v) => QueryValueView::Property(v@),
            QueryValue::Text(t) => QueryValueView::Text(t@),
            QueryValue::Projection(id) => QueryValueView::Projection(id.0),
        }
    }
}

/// One query result row.
#[derive(Clone, Debug, PartialEq, Eq)]
pub struct QueryRow {
    /// Values carried by the row.
    pub values: Vec<QueryValue>,
}

impl View for QueryRow {
    type V = Seq<QueryValueView>;

    open spec fn view(&self) -> Seq<QueryValueView> {
        self.values@.map_values(|v: QueryValue| v@)
    }
}

impl QueryRow {
    /// A single-value row.
    pub fn single(value: QueryValue) -> (row: Self)
        ensures
            row@ == seq![value@],
    {
        let row = QueryRow { values: vec![value] };
        proof {
            assert(row@ =~= seq![value@]);
        }
        row
    }
}

/// Query result rows.
#[derive(Clone, Debug, PartialEq, Eq)]
pub struct QueryResult {
    /// Materialized rows.
    rows: Vec<QueryRow>,
}

impl View for QueryResult {
    type V = Seq<Seq<QueryValueView>>;

    closed spec fn view(&self) -> Seq<Seq<QueryValueView>> {
        self.rows@.map_values(|r: QueryRow| r@)
    }
}

impl QueryResult {
    /// Creates a result from rows.
    pub fn new(rows: Vec<QueryRow>) -> (r: Self)
        ensures
            r@ == rows@.map_values(|row: QueryRow| row@),
    {
        QueryResult { rows }
    }

    /// Returns the result rows.
    pub fn rows(&self) -> (rows: &[QueryRow])
        ensures
            rows@.map_values(|row: QueryRow| row@) == self@,
    {
        self.rows.as_slice()
    }
}

/// A logical operation produced by parsing, before catalog binding: raw
/// names and literal tokens.
#[derive(Clone, Debug, PartialEq, Eq)]
pub enum LogicalOp {
    /// Scan all elements.
    ElementScan,
    /// Scan all relations.
    RelationScan,
    /// Scan all incidences.
    IncidenceScan,
    /// Scan catalog metadata.
    CatalogScan,
    /// Scan elements carrying a named label.
    ElementLabelScan {
        /// Unresolved label name.
        label: String,
    },
    /// Scan relations of a named relation type.
    RelationTypeScan {
        /// Unresolved relation type name.
        relation_type: String,
    },
    /// Scan elements whose named property equals a literal token.
    ElementPropertyEqual {
        /// Unresolved property key name.
        key: String,
        /// Unparsed property value token.
        value: String,
    },
    /// Walk a named graph projection from a raw element-id token.
    GraphWalk {
        /// Unresolved projection name.
        projection: String,
        /// Unparsed element-id token.
        element: String,
        /// Walk bounds.
        options: Walk,
    },
    /// Scan the first graph projection as directed triples.
    CypherDirectedTriples,
}

/// The content of a logical operation.
pub enum LogicalView {
    /// Scan all elements.
    ElementScan,
    /// Scan all relations.
    RelationScan,
    /// Scan all incidences.
    IncidenceScan,
    /// Scan catalog metadata.
    CatalogScan,
    /// Scan elements carrying a label.
    ElementLabelScan {
        /// Label name.
        label: Seq<char>,
    },
    /// Scan relations of a relation type.
    RelationTypeScan {
        /// Relation type name.
        relation_type: Seq<char>,
    },
    /// Scan elements by property equality.
    ElementPropertyEqual {
        /// Property key name.
        key: Seq<char>,
        /// Literal token.
        value: Seq<char>,
    },
    /// Walk a graph projection.
    GraphWalk {
        /// Projection name.
        projection: Seq<char>,
        /// Element-id token.
        element: Seq<char>,
        /// Walk bounds.
        options: Walk,
    },
    /// Directed triple scan.
    CypherDirectedTriples,
}

impl View for LogicalOp {
    type V = LogicalView;

    open spec fn view(&self) -> LogicalView {
        match self {
            LogicalOp::ElementScan => LogicalView::ElementScan,
            LogicalOp::RelationScan => LogicalView::RelationScan,
            LogicalOp::IncidenceScan => LogicalView::IncidenceScan,
            LogicalOp::CatalogScan => LogicalView::CatalogScan,
            LogicalOp::ElementLabelScan { label } => LogicalView::ElementLabelScan { label: label@ },
            LogicalOp::RelationTypeScan { relation_type } => LogicalView::RelationTypeScan {
                relation_type: relation_type@,
            },
            LogicalOp::ElementPropertyEqual { key, value } => LogicalView::ElementPropertyEqual {
                key: key@,
                value: value@,
            },
            LogicalOp::GraphWalk { projection, element, options } => LogicalView::GraphWalk {
                projection: projection@,
                element: element@,
                options: *options,
            },
            LogicalOp::CypherDirectedTriples => LogicalView::CypherDirectedTriples,
        }
    }
}

/// `r` is the operation `spec` describes, or the unsupported-query error
/// whose reason `spec` gives.
pub open spec fn parsed_as(r: Result<LogicalOp, DbError>, spec: Result<LogicalView, Seq<char>>) -> bool {
    match spec {
        Ok(v) => r matches Ok(op) && op@ == v,
        Err(m) => r matches Err(DbError::Unsupported { reason }) && reason@ == m,
    }
}

/// Whether `t` upper-cased is the keyword `k`.
pub open spec fn kw(t: Seq<char>, k: Seq<char>) -> bool {
    upper_seq(t) == k
}

/// A walk direction keyword.
pub open spec fn direction_of(t: Seq<char>) -> Option<Direction> {
    if kw(t, "OUTGOING"@) {
        Some(Direction::Outgoing)
    } else if kw(t, "INCOMING"@) {
        Some(Direction::Incoming)
    } else if kw(t, "BOTH"@) {
        Some(Direction::Both)
    } else {
        None
    }
}

/// A `usize` literal.
pub open spec fn usize_literal(t: Seq<char>) -> Option<usize> {
    match unsigned_literal(t) {
        Some(v) => if v <= usize::MAX {
            Some(v as usize)
        } else {
            None
        },
        None => None,
    }
}

/// Reads the `DIRECTION`/`LIMIT` option pairs of a walk from token `idx`
/// on.
pub open spec fn walk_options(t: Seq<Seq<char>>, idx: int, w: Walk, saw_direction: bool, saw_limit: bool) -> Result<
    Walk,
    Seq<char>,
>
    decreases t.len() - idx,
{
    if idx < 0 || idx >= t.len() {
        Ok(w)
    } else if idx + 1 >= t.len() {
        Err("walk option requires a value"@)
    } else if kw(t[idx], "DIRECTION"@) {
        if saw_direction {
            Err("walk direction specified twice"@)
        } else {
            match direction_of(t[idx + 1]) {
                None => Err("walk direction must be outgoing, incoming, or both"@),
                Some(d) => walk_options(t, idx + 2, Walk { direction: d, ..w }, true, saw_limit),
            }
        }
    } else if kw(t[idx], "LIMIT"@) {
        if saw_limit {
            Err("walk limit specified twice"@)
        } else {
            match usize_literal(t[idx + 1]) {
                None => Err("walk limit must be an integer"@),
                Some(l) => walk_options(t, idx + 2, Walk { limit: l, ..w }, saw_direction, true),
            }
        }
    } else {
        Err("unsupported walk option"@)
    }
}

/// The default walk: depth 1, outgoing, unbounded, seeds excluded.
pub open spec fn default_walk() -> Walk {
    Walk { max_depth: 1, direction: Direction::Outgoing, limit: usize::MAX, include_start: false }
}

/// Reads a `GRAPH <p> WALK FROM <e> DEPTH <d> [options]` query.
pub open spec fn walk_query(t: Seq<Seq<char>>) -> Result<LogicalView, Seq<char>> {
    match usize_literal(t[6]) {
        None => Err("walk depth must be an integer"@),
        Some(d) => match walk_options(t, 7, Walk { max_depth: d, ..default_walk() }, false, false) {
            Err(m) => Err(m),
            Ok(w) => Ok(LogicalView::GraphWalk { projection: t[1], element: t[4], options: w }),
        },
    }
}

/// Reads the native `OxQL` profile from its whitespace tokens (keywords are
/// case-insensitive).
pub open spec fn oxql_query(t: Seq<Seq<char>>) -> Result<LogicalView, Seq<char>> {
    let n = t.len();
    if n == 1 && kw(t[0], "CATALOG"@) {
        Ok(LogicalView::CatalogScan)
    } else if n == 2 && kw(t[0], "MATCH"@) && kw(t[1], "ELEMENTS"@) {
        Ok(LogicalView::ElementScan)
    } else if n == 2 && kw(t[0], "MATCH"@) && kw(t[1], "RELATIONS"@) {
        Ok(LogicalView::RelationScan)
    } else if n == 2 && kw(t[0], "MATCH"@) && kw(t[1], "INCIDENCES"@) {
        Ok(LogicalView::IncidenceScan)
    } else if n == 5 && kw(t[0], "MATCH"@) && kw(t[1], "ELEMENTS"@) && kw(t[2], "HAS"@) && kw(t[3], "LABEL"@) {
        Ok(LogicalView::ElementLabelScan { label: t[4] })
    } else if n == 4 && kw(t[0], "MATCH"@) && kw(t[1], "RELATIONS"@) && kw(t[2], "TYPE"@) {
        Ok(LogicalView::RelationTypeScan { relation_type: t[3] })
    } else if n == 6 && kw(t[0], "MATCH"@) && kw(t[1], "ELEMENTS"@) && kw(t[2], "WHERE"@) && kw(t[4], "="@) {
        Ok(LogicalView::ElementPropertyEqual { key: t[3], value: t[5] })
    } else if n == 4 && kw(t[0], "GRAPH"@) && kw(t[2], "NEIGHBORS"@) {
        Ok(LogicalView::GraphWalk { projection: t[1], element: t[3], options: default_walk() })
    } else if n >= 7 && kw(t[0], "GRAPH"@) && kw(t[2], "WALK"@) && kw(t[3], "FROM"@) && kw(t[5], "DEPTH"@) {
        walk_query(t)
    } else {
        Err("unsupported OxQL profile query"@)
    }
}

/// The direction option of a walk query chooses the walk's direction: the
/// keyword `OUTGOING`, `INCOMING`, or `BOTH`, in any letter case, walks
/// outgoing edges, incoming edges, or both; any other word is refused.
/// Depth, projection, and element come from their tokens, and the other
/// options keep their defaults.
pub proof fn lemma_walk_direction_keyword(t: Seq<Seq<char>>, depth: usize)
    requires
        t.len() == 9,
        kw(t[0], "GRAPH"@),
        kw(t[2], "WALK"@),
        kw(t[3], "FROM"@),
        kw(t[5], "DEPTH"@),
        usize_literal(t[6]) == Some(depth),
        kw(t[7], "DIRECTION"@),
    ensures
        upper_seq(t[8]) == "OUTGOING"@ ==> oxql_query(t) == Ok::<LogicalView, Seq<char>>(
            LogicalView::GraphWalk {
                projection: t[1],
                element: t[4],
                options: Walk {
                    max_depth: depth,
                    direction: Direction::Outgoing,
                    limit: usize::MAX,
                    include_start: false,
                },
            },
        ),
        upper_seq(t[8]) == "INCOMING"@ ==> oxql_query(t) == Ok::<LogicalView, Seq<char>>(
            LogicalView::GraphWalk {
                projection: t[1],
                element: t[4],
                options: Walk {
                    max_depth: depth,
                    direction: Direction::Incoming,
                    limit: usize::MAX,
                    include_start: false,
                },
            },
        ),
        upper_seq(t[8]) == "BOTH"@ ==> oxql_query(t) == Ok::<LogicalView, Seq<char>>(
            LogicalView::GraphWalk {
                projection: t[1],
                element: t[4],
                options: Walk { max_depth: depth, direction: Direction::Both, limit: usize::MAX, include_start: false },
            },
        ),
        upper_seq(t[8]) != "OUTGOING"@ && upper_seq(t[8]) != "INCOMING"@ && upper_seq(t[8]) != "BOTH"@
            ==> oxql_query(t) == Err::<LogicalView, Seq<char>>("walk direction must be outgoing, incoming, or both"@),
{
    reveal_strlit("OUTGOING");
    reveal_strlit("INCOMING");
    reveal_strlit("BOTH");
    assert("OUTGOING"@[0] != "INCOMING"@[0]);
    assert("OUTGOING"@.len() != "BOTH"@.len());
    assert("INCOMING"@.len() != "BOTH"@.len());
    let w = Walk { max_depth: depth, ..default_walk() };
    assert(walk_options(t, 9, Walk { direction: Direction::Outgoing, ..w }, true, false) == Ok::<Walk, Seq<char>>(
        Walk { direction: Direction::Outgoing, ..w },
    ));
    assert(walk_options(t, 9, Walk { direction: Direction::Incoming, ..w }, true, false) == Ok::<Walk, Seq<char>>(
        Walk { direction: Direction::Incoming, ..w },
    ));
    assert(walk_options(t, 9, Walk { direction: Direction::Both, ..w }, true, false) == Ok::<Walk, Seq<char>>(
        Walk { direction: Direction::Both, ..w },
    ));
}

/// Whether token `i` upper-cased is the keyword `k`.
fn token_is(tokens: &Vec<String>, i: usize, k: &str) -> (b: bool)
    requires
        i < tokens@.len(),
    ensures
        b == kw(tokens@[i as int]@, k@),
{
    upper_equals(tokens[i].as_str(), k)
}

/// Parses a walk direction keyword.
fn parse_walk_direction(token: &str) -> (r: Option<Direction>)
    ensures
        r == direction_of(token@),
{
    if upper_equals(token, "OUTGOING") {
        Some(Direction::Outgoing)
    } else if upper_equals(token, "INCOMING") {
        Some(Direction::Incoming)
    } else if upper_equals(token, "BOTH") {
        Some(Direction::Both)
    } else {
        None
    }
}

/// Parses a `usize` literal.
fn parse_usize(token: &str) -> (r: Option<usize>)
    ensures
        r == usize_literal(token@),
{
    match crate::text::parse_unsigned(token, usize::MAX as u64) {
        Some(v) => Some(v as usize),
        None => None,
    }
}

/// Parses the depth and the optional `DIRECTION`/`LIMIT` clauses of an
/// `OxQL` graph walk.
fn parse_graph_walk(tokens: &Vec<String>) -> (r: Result<LogicalOp, DbError>)
    requires
        tokens@.len() >= 7,
    ensures
        parsed_as(r, walk_query(string_views(tokens@))),
{
    let ghost t = string_views(tokens@);
    let max_depth = match parse_usize(tokens[6].as_str()) {
        Some(d) => d,
        None => return Err(DbError::unsupported("walk depth must be an integer")),
    };
    let mut options = Walk { max_depth, ..Walk::default() };
    let mut saw_direction = false;
    let mut saw_limit = false;
    let mut index: usize = 7;
    while index < tokens.len()
        invariant
            7 <= index,
            t == string_views(tokens@),
            t.len() >= 7,
            usize_literal(t[6]) == Some(max_depth),
            walk_options(t, 7, Walk { max_depth, ..default_walk() }, false, false) == walk_options(
                t,
                index as int,
                options,
                saw_direction,
                saw_limit,
            ),
        decreases tokens@.len() - index,
    {
        if index + 1 >= tokens.len() {
            return Err(DbError::unsupported("walk option requires a value"));
        }
        if token_is(tokens, index, "DIRECTION") {
            if saw_direction {
                return Err(DbError::unsupported("walk direction specified twice"));
            }
            match parse_walk_direction(tokens[index + 1].as_str()) {
                Some(d) => {
                    options = Walk { direction: d, ..options };
                },
                None => return Err(DbError::unsupported("walk direction must be outgoing, incoming, or both")),
            }
            saw_direction = true;
        } else if token_is(tokens, index, "LIMIT") {
            if saw_limit {
                return Err(DbError::unsupported("walk limit specified twice"));
            }
            match parse_usize(tokens[index + 1].as_str()) {
                Some(l) => {
                    options = Walk { limit: l, ..options };
                },
                None => return Err(DbError::unsupported("walk limit must be an integer")),
            }
            saw_limit = true;
        } else {
            return Err(DbError::unsupported("unsupported walk option"));
        }
        index = index + 2;
    }
    Ok(LogicalOp::GraphWalk { projection: tokens[1].clone(), element: tokens[4].clone(), options })
}

/// Parses native `OxQL` into a logical operation without catalog access.
pub fn parse_oxql(query: &str) -> (r: Result<LogicalOp, DbError>)
    ensures
        parsed_as(r, oxql_query(split_ws(query@))),
{
    let tokens = split_whitespace(query);
    let n = tokens.len();
    if n == 1 && token_is(&tokens, 0, "CATALOG") {
        return Ok(LogicalOp::CatalogScan);
    }
    if n == 2 && token_is(&tokens, 0, "MATCH") && token_is(&tokens, 1, "ELEMENTS") {
        return Ok(LogicalOp::ElementScan);
    }
    if n == 2 && token_is(&tokens, 0, "MATCH") && token_is(&tokens, 1, "RELATIONS") {
        return Ok(LogicalOp::RelationScan);
    }
    if n == 2 && token_is(&tokens, 0, "MATCH") && token_is(&tokens, 1, "INCIDENCES") {
        return Ok(LogicalOp::IncidenceScan);
    }
    if n == 5 && token_is(&tokens, 0, "MATCH") && token_is(&tokens, 1, "ELEMENTS") && token_is(&tokens, 2, "HAS")
        && token_is(&tokens, 3, "LABEL") {
        return Ok(LogicalOp::ElementLabelScan { label: tokens[4].clone() });
    }
    if n == 4 && token_is(&tokens, 0, "MATCH") && token_is(&tokens, 1, "RELATIONS") && token_is(&tokens, 2, "TYPE") {
        return Ok(LogicalOp::RelationTypeScan { relation_type: tokens[3].clone() });
    }
    if n == 6 && token_is(&tokens, 0, "MATCH") && token_is(&tokens, 1, "ELEMENTS") && token_is(&tokens, 2, "WHERE")
        && token_is(&tokens, 4, "=") {
        return Ok(LogicalOp::ElementPropertyEqual { key: tokens[3].clone(), value: tokens[5].clone() });
    }
    if n == 4 && token_is(&tokens, 0, "GRAPH") && token_is(&tokens, 2, "NEIGHBORS") {
        return Ok(
            LogicalOp::GraphWalk { projection: tokens[1].clone(), element: tokens[3].clone(), options: Walk::default() },
        );
    }
    if n >= 7 && token_is(&tokens, 0, "GRAPH") && token_is(&tokens, 2, "WALK") && token_is(&tokens, 3, "FROM")
        && token_is(&tokens, 5, "DEPTH") {
        return parse_graph_walk(&tokens);
    }
    Err(DbError::unsupported("unsupported OxQL profile query"))
}

/// Reads the pinned Cypher profile: three exact query shapes.
pub open spec fn cypher_query(q: Seq<char>) -> Result<LogicalView, Seq<char>> {
    if q == "MATCH (n) RETURN n"@ {
        Ok(LogicalView::ElementScan)
    } else if q == "MATCH (n)-[r]->(m) RETURN n,r,m"@ {
        Ok(LogicalView::CypherDirectedTriples)
    } else if q.len() >= 19 && q.subrange(0, 9) == "MATCH (n:"@ && q.subrange(q.len() - 10, q.len() as int)
        == ") RETURN n"@ {
        Ok(LogicalView::ElementLabelScan { label: q.subrange(9, q.len() - 10) })
    } else {
        Err("unsupported Cypher profile query"@)
    }
}

/// Every label fits the Cypher label-scan shape: `MATCH (n:<label>) RETURN n`
/// reads as the element scan of exactly that label.
pub proof fn lemma_cypher_label_scan(label: Seq<char>)
    ensures
        cypher_query("MATCH (n:"@ + label + ") RETURN n"@) == Ok::<LogicalView, Seq<char>>(
            LogicalView::ElementLabelScan { label },
        ),
{
    reveal_strlit("MATCH (n:");
    reveal_strlit(") RETURN n");
    reveal_strlit("MATCH (n) RETURN n");
    reveal_strlit("MATCH (n)-[r]->(m) RETURN n,r,m");
    let q = "MATCH (n:"@ + label + ") RETURN n"@;
    assert(q[8] == ':');
    assert("MATCH (n) RETURN n"@[8] == ')');
    assert("MATCH (n)-[r]->(m) RETURN n,r,m"@[8] == ')');
    assert(q.subrange(0, 9) =~= "MATCH (n:"@);
    assert(q.subrange(q.len() - 10, q.len() as int) =~= ") RETURN n"@);
    assert(q.subrange(9, q.len() - 10) =~= label);
}

/// Parses the pinned Cypher language profile into a logical operation.
pub fn parse_cypher(query: &str) -> (r: Result<LogicalOp, DbError>)
    ensures
        parsed_as(r, cypher_query(query@)),
{
    if crate::text::text_equals(query, "MATCH (n) RETURN n") {
        return Ok(LogicalOp::ElementScan);
    }
    if crate::text::text_equals(query, "MATCH (n)-[r]->(m) RETURN n,r,m") {
        return Ok(LogicalOp::CypherDirectedTriples);
    }
    let n = query.unicode_len();
    if n >= 19 {
        let prefix = query.substring_char(0, 9);
        let suffix = query.substring_char(n - 10, n);
        if crate::text::text_equals(prefix, "MATCH (n:") && crate::text::text_equals(suffix, ") RETURN n") {
            return Ok(LogicalOp::ElementLabelScan { label: query.substring_char(9, n - 10).to_owned() });
        }
    }
    Err(DbError::unsupported("unsupported Cypher profile query"))
}


/// A physical query plan: names resolved to catalog ids and literals parsed.
#[derive(Clone, Debug, PartialEq, Eq)]
pub enum QueryPlan {
    /// Scan all elements.
    ElementScan,
    /// Scan all relations.
    RelationScan,
    /// Scan all incidences.
    IncidenceScan,
    /// Scan elements with a label.
    ElementLabelScan {
        /// Label name for explanations.
        label: String,
        /// Label id.
        label_id: LabelId,
    },
    /// Scan elements by property equality.
    ElementPropertyEqual {
        /// Property key name for explanations.
        key: String,
        /// Property key id.
        key_id: PropertyKeyId,
        /// Required property value.
        value: PropertyValue,
    },
    /// Scan relations by relation type.
    RelationTypeScan {
        /// Relation type name for explanations.
        relation_type: String,
        /// Relation type id.
        relation_type_id: RelationTypeId,
    },
    /// Walk a graph projection.
    GraphWalk {
        /// Projection id.
        projection: ProjectionId,
        /// Canonical starting element.
        element: ElementId,
        /// Walk bounds.
        options: Walk,
    },
    /// Directed triple scan of a graph projection.
    CypherDirectedTriples {
        /// Graph projection id.
        projection: ProjectionId,
    },
    /// Catalog metadata scan.
    CatalogScan,
}

/// The content of a physical plan.
pub enum PlanView {
    /// Scan all elements.
    ElementScan,
    /// Scan all relations.
    RelationScan,
    /// Scan all incidences.
    IncidenceScan,
    /// Scan elements with a label.
    ElementLabelScan {
        /// Label name.
        label: Seq<char>,
        /// Label id.
        label_id: u64,
    },
    /// Scan elements by property equality.
    ElementPropertyEqual {
        /// Property key name.
        key: Seq<char>,
        /// Property key id.
        key_id: u64,
        /// Required value.
        value: ValueView,
    },
    /// Scan relations by relation type.
    RelationTypeScan {
        /// Relation type name.
        relation_type: Seq<char>,
        /// Relation type id.
        relation_type_id: u64,
    },
    /// Walk a graph projection.
    GraphWalk {
        /// Projection id.
        projection: u64,
        /// Starting element.
        element: u64,
        /// Walk bounds.
        options: Walk,
    },
    /// Directed triple scan.
    CypherDirectedTriples {
        /// Graph projection id.
        projection: u64,
    },
    /// Catalog metadata scan.
    CatalogScan,
}

impl View for QueryPlan {
    type V = PlanView;

    open spec fn view(&self) -> PlanView {
        match self {
            QueryPlan::ElementScan => PlanView::ElementScan,
            QueryPlan::RelationScan => PlanView::RelationScan,
            QueryPlan::IncidenceScan => PlanView::IncidenceScan,
            QueryPlan::ElementLabelScan { label, label_id } => PlanView::ElementLabelScan {
                label: label@,
                label_id: label_id.0,
            },
            QueryPlan::ElementPropertyEqual { key, key_id, value } => PlanView::ElementPropertyEqual {
                key: key@,
                key_id: key_id.0,
                value: value@,
            },
            QueryPlan::RelationTypeScan { relation_type, relation_type_id } => PlanView::RelationTypeScan {
                relation_type: relation_type@,
                relation_type_id: relation_type_id.0,
            },
            QueryPlan::GraphWalk { projection, element, options } => PlanView::GraphWalk {
                projection: projection.0,
                element: element.0,
                options: *options,
            },
            QueryPlan::CypherDirectedTriples { projection } => PlanView::CypherDirectedTriples {
                projection: projection.0,
            },
            QueryPlan::CatalogScan => PlanView::CatalogScan,
        }
    }
}

/// `r` is the unsupported-query error with reason `m`.
pub open spec fn unsupported_is<T>(r: Result<T, DbError>, m: Seq<char>) -> bool {
    r matches Err(DbError::Unsupported { reason }) && reason@ == m
}

/// The id of the first graph projection in catalog order.
pub open spec fn first_graph(entries: Seq<ProjectionEntry>) -> Option<u64>
    decreases entries.len(),
{
    if entries.len() == 0 {
        None
    } else if entries[0].definition is Graph {
        Some(entries[0].id.0)
    } else {
        first_graph(entries.drop_first())
    }
}

/// A `u64` literal.
pub open spec fn u64_literal(t: Seq<char>) -> Option<u64> {
    match unsigned_literal(t) {
        Some(v) => if v <= u64::MAX {
            Some(v as u64)
        } else {
            None
        },
        None => None,
    }
}

/// How binding resolves a graph walk once the projection name resolved to
/// `id`.
pub open spec fn walk_binding(state: DatabaseState, id: ProjectionId, element: Seq<char>, options: Walk) -> Result<
    PlanView,
    Result<DbError, Seq<char>>,
> {
    match projection_entry(state.catalog_v().projections@, id) {
        None => Err(Ok(DbError::UnknownProjection { id })),
        Some(entry) => if entry.definition is Hypergraph {
            Err(Ok(DbError::InvalidProjection { reason: "projection is not a graph" }))
        } else {
            match u64_literal(element) {
                None => Err(Err("element id must be an integer"@)),
                Some(raw) => Ok(PlanView::GraphWalk { projection: id.0, element: raw, options }),
            }
        },
    }
}

/// How binding resolves a logical operation against the catalog: the plan,
/// or the error (`Ok(e)`) or unsupported-query reason (`Err(m)`).
pub open spec fn binding(state: DatabaseState, op: LogicalView) -> Result<PlanView, Result<DbError, Seq<char>>> {
    let cat = state.catalog_v();
    match op {
        LogicalView::ElementScan => Ok(PlanView::ElementScan),
        LogicalView::RelationScan => Ok(PlanView::RelationScan),
        LogicalView::IncidenceScan => Ok(PlanView::IncidenceScan),
        LogicalView::CatalogScan => Ok(PlanView::CatalogScan),
        LogicalView::ElementLabelScan { label } => match crate::catalog::named_lookup(cat.labels@, label) {
            None => Err(Err("unknown label "@ + label)),
            Some(id) => Ok(PlanView::ElementLabelScan { label, label_id: id }),
        },
        LogicalView::RelationTypeScan { relation_type } => match crate::catalog::named_lookup(
            cat.relation_types@,
            relation_type,
        ) {
            None => Err(Err("unknown relation type "@ + relation_type)),
            Some(id) => Ok(PlanView::RelationTypeScan { relation_type, relation_type_id: id }),
        },
        LogicalView::ElementPropertyEqual { key, value } => match crate::catalog::key_lookup(
            cat.property_keys@,
            key,
        ) {
            None => Err(Err("unknown property key "@ + key)),
            Some(key_id) => match value_token(value) {
                Err(tok) => Err(Err(tok)),
                Ok(v) => match state.family_lookup_error(key_id, PropertyFamily::Element, v) {
                    Some(e) => Err(Ok(e)),
                    None => Ok(PlanView::ElementPropertyEqual { key, key_id: key_id.0, value: v }),
                },
            },
        },
        LogicalView::GraphWalk { projection, element, options } => match crate::catalog::projection_lookup(
            cat.projections@,
            projection,
        ) {
            None => Err(Err("unknown projection "@ + projection)),
            Some(id) => walk_binding(state, id, element, options),
        },
        LogicalView::CypherDirectedTriples => match first_graph(cat.projections@) {
            None => Err(Err("Cypher profile requires a graph projection"@)),
            Some(id) => Ok(PlanView::CypherDirectedTriples { projection: id }),
        },
    }
}

/// `r` is the outcome `spec` describes.
pub open spec fn bound_as(r: Result<QueryPlan, DbError>, spec: Result<PlanView, Result<DbError, Seq<char>>>) -> bool {
    match spec {
        Ok(p) => r matches Ok(plan) && plan@ == p,
        Err(Ok(e)) => r == Err::<QueryPlan, DbError>(e),
        Err(Err(m)) => unsupported_is(r, m),
    }
}

/// An unsupported-query error whose reason is `prefix` followed by `name`.
fn unsupported_name(prefix: &str, name: &String) -> (e: DbError)
    ensures
        e matches DbError::Unsupported { reason } && reason@ == prefix@ + name@,
{
    let mut reason = String::from_str(prefix);
    reason.append(name.as_str());
    DbError::Unsupported { reason }
}

/// The first graph projection in catalog order.
fn first_graph_projection(state: &DatabaseState) -> (r: Option<ProjectionId>)
    ensures
        match first_graph(state.catalog_v().projections@) {
            Some(id) => r == Some(ProjectionId(id)),
            None => r is None,
        },
{
    let entries = &state.catalog().projections;
    let mut i: usize = 0;
    proof {
        assert(entries@.subrange(0, entries@.len() as int) =~= entries@);
    }
    while i < entries.len()
        invariant
            i <= entries@.len(),
            *entries == state.catalog_v().projections,
            first_graph(entries@) == first_graph(entries@.subrange(i as int, entries@.len() as int)),
        decreases entries@.len() - i,
    {
        let ghost rest = entries@.subrange(i as int, entries@.len() as int);
        proof {
            assert(rest.drop_first() =~= entries@.subrange(i + 1, entries@.len() as int));
            assert(rest[0] == entries@[i as int]);
        }
        match &entries[i].definition {
            ProjectionDefinition::Graph(_) => {
                return Some(entries[i].id);
            },
            ProjectionDefinition::Hypergraph(_) => {},
        }
        i = i + 1;
    }
    None
}

/// Resolves and validates a graph walk once its projection is known.
fn lower_graph_walk(state: &DatabaseState, projection: ProjectionId, element: &String, options: Walk) -> (r: Result<
    QueryPlan,
    DbError,
>)
    ensures
        bound_as(r, walk_binding(*state, projection, element@, options)),
{
    let entry = match state.catalog().projection(projection) {
        Some(e) => e,
        None => return Err(DbError::UnknownProjection { id: projection }),
    };
    match &entry.definition {
        ProjectionDefinition::Hypergraph(_) => {
            return Err(DbError::invalid_projection("projection is not a graph"));
        },
        ProjectionDefinition::Graph(_) => {},
    }
    match crate::text::parse_unsigned(element.as_str(), u64::MAX) {
        Some(raw) => Ok(QueryPlan::GraphWalk { projection, element: ElementId::new(raw), options }),
        None => Err(DbError::unsupported("element id must be an integer")),
    }
}

/// Binds a label scan.
fn bind_label(state: &DatabaseState, label: String) -> (r: Result<QueryPlan, DbError>)
    ensures
        bound_as(r, binding(*state, LogicalView::ElementLabelScan { label: label@ })),
{
    match state.catalog().label_id(label.as_str()) {
        Some(label_id) => Ok(QueryPlan::ElementLabelScan { label, label_id }),
        None => Err(unsupported_name("unknown label ", &label)),
    }
}

/// Binds a relation-type scan.
fn bind_relation_type(state: &DatabaseState, relation_type: String) -> (r: Result<QueryPlan, DbError>)
    ensures
        bound_as(r, binding(*state, LogicalView::RelationTypeScan { relation_type: relation_type@ })),
{
    match state.catalog().relation_type_id(relation_type.as_str()) {
        Some(relation_type_id) => Ok(QueryPlan::RelationTypeScan { relation_type, relation_type_id }),
        None => Err(unsupported_name("unknown relation type ", &relation_type)),
    }
}

/// Binds a property-equality scan.
#[verifier::rlimit(40)]
fn bind_property_equal(state: &DatabaseState, key: String, value: String) -> (r: Result<QueryPlan, DbError>)
    ensures
        bound_as(r, binding(*state, LogicalView::ElementPropertyEqual { key: key@, value: value@ })),
{
    let key_id = match state.catalog().property_key_id(key.as_str()) {
        Some(k) => k,
        None => return Err(unsupported_name("unknown property key ", &key)),
    };
    let parsed = match parse_value_token(value.as_str()) {
        Ok(v) => v,
        Err(tok) => return Err(DbError::Unsupported { reason: tok }),
    };
    match state.validate_lookup_value_for_family(key_id, PropertyFamily::Element, &parsed) {
        Ok(()) => {},
        Err(e) => return Err(e),
    }
    Ok(QueryPlan::ElementPropertyEqual { key, key_id, value: parsed })
}

/// Binds a graph walk.
fn bind_graph_walk(state: &DatabaseState, projection: String, element: String, options: Walk) -> (r: Result<
    QueryPlan,
    DbError,
>)
    ensures
        bound_as(
            r,
            binding(*state, LogicalView::GraphWalk { projection: projection@, element: element@, options }),
        ),
{
    let id = match state.catalog().projection_id(projection.as_str()) {
        Some(id) => id,
        None => return Err(unsupported_name("unknown projection ", &projection)),
    };
    lower_graph_walk(state, id, &element, options)
}

/// Binds a logical operation against the catalog and lowers it to a plan:
/// names resolve to catalog ids (first match in registration order),
/// property literals are parsed and checked against the key's family and
/// type.
pub fn bind_and_lower(op: LogicalOp, state: &DatabaseState) -> (r: Result<QueryPlan, DbError>)
    ensures
        bound_as(r, binding(*state, op@)),
{
    match op {
        LogicalOp::ElementScan => Ok(QueryPlan::ElementScan),
        LogicalOp::RelationScan => Ok(QueryPlan::RelationScan),
        LogicalOp::IncidenceScan => Ok(QueryPlan::IncidenceScan),
        LogicalOp::CatalogScan => Ok(QueryPlan::CatalogScan),
        LogicalOp::ElementLabelScan { label } => bind_label(state, label),
        LogicalOp::RelationTypeScan { relation_type } => bind_relation_type(state, relation_type),
        LogicalOp::ElementPropertyEqual { key, value } => bind_property_equal(state, key, value),
        LogicalOp::GraphWalk { projection, element, options } => bind_graph_walk(state, projection, element, options),
        LogicalOp::CypherDirectedTriples => match first_graph_projection(state) {
            Some(projection) => Ok(QueryPlan::CypherDirectedTriples { projection }),
            None => Err(DbError::unsupported("Cypher profile requires a graph projection")),
        },
    }
}


/// The `Debug` name of a walk direction.
pub open spec fn direction_name(d: Direction) -> Seq<char> {
    match d {
        Direction::Outgoing => "Outgoing"@,
        Direction::Incoming => "Incoming"@,
        Direction::Both => "Both"@,
    }
}

/// The stable explanation text of a plan.
pub open spec fn explain_text(plan: PlanView) -> Seq<char> {
    match plan {
        PlanView::ElementScan => "oxql scan elements"@,
        PlanView::RelationScan => "oxql scan relations"@,
        PlanView::IncidenceScan => "oxql scan incidences"@,
        PlanView::ElementLabelScan { label, .. } => "oxql label index lookup elements label="@ + label,
        PlanView::ElementPropertyEqual { key, value, .. } => "oxql property equality lookup elements "@ + key + "="@
            + crate::value::value_text(value),
        PlanView::RelationTypeScan { relation_type, .. } => "oxql relation-type index lookup type="@ + relation_type,
        PlanView::GraphWalk { projection, element, options } => "oxql graph projection "@ + crate::text::decimal(
            projection as nat,
        ) + " walk from "@ + crate::text::decimal(element as nat) + " depth "@ + crate::text::decimal(
            options.max_depth as nat,
        ) + " direction "@ + direction_name(options.direction) + " limit "@ + crate::text::decimal(
            options.limit as nat,
        ),
        PlanView::CypherDirectedTriples { projection } => "cypher directed triple scan projection="@
            + crate::text::decimal(projection as nat),
        PlanView::CatalogScan => "catalog metadata scan"@,
    }
}

/// The `Debug` name of a walk direction (executable form).
fn direction_str(d: Direction) -> (s: &'static str)
    ensures
        s@ == direction_name(d),
{
    match d {
        Direction::Outgoing => "Outgoing",
        Direction::Incoming => "Incoming",
        Direction::Both => "Both",
    }
}

/// A string holding `prefix`.
fn text_of(prefix: &str) -> (s: String)
    ensures
        s@ == prefix@,
{
    String::from_str(prefix)
}

/// Explains a physical plan.
pub fn explain_plan(plan: &QueryPlan) -> (s: String)
    ensures
        s@ == explain_text(plan@),
{
    match plan {
        QueryPlan::ElementScan => text_of("oxql scan elements"),
        QueryPlan::RelationScan => text_of("oxql scan relations"),
        QueryPlan::IncidenceScan => text_of("oxql scan incidences"),
        QueryPlan::ElementLabelScan { label, .. } => {
            let mut s = text_of("oxql label index lookup elements label=");
            s.append(label.as_str());
            s
        },
        QueryPlan::ElementPropertyEqual { key, value, .. } => {
            let mut s = text_of("oxql property equality lookup elements ");
            s.append(key.as_str());
            s.append("=");
            crate::value::push_value_text(&mut s, value);
            proof {
                assert(s@ =~= explain_text(plan@));
            }
            s
        },
        QueryPlan::RelationTypeScan { relation_type, .. } => {
            let mut s = text_of("oxql relation-type index lookup type=");
            s.append(relation_type.as_str());
            s
        },
        QueryPlan::GraphWalk { projection, element, options } => {
            let mut s = text_of("oxql graph projection ");
            crate::text::push_decimal(&mut s, projection.0);
            s.append(" walk from ");
            crate::text::push_decimal(&mut s, element.0);
            s.append(" depth ");
            crate::text::push_decimal(&mut s, options.max_depth as u64);
            s.append(" direction ");
            s.append(direction_str(options.direction));
            s.append(" limit ");
            crate::text::push_decimal(&mut s, options.limit as u64);
            proof {
                assert(s@ =~= explain_text(plan@));
            }
            s
        },
        QueryPlan::CypherDirectedTriples { projection } => {
            let mut s = text_of("cypher directed triple scan projection=");
            crate::text::push_decimal(&mut s, projection.0);
            s
        },
        QueryPlan::CatalogScan => text_of("catalog metadata scan"),
    }
}


/// One single-element row per id.
pub open spec fn element_rows(ids: Seq<u64>) -> Seq<Seq<QueryValueView>> {
    ids.map_values(|k: u64| seq![QueryValueView::Element(k)])
}

/// One single-relation row per id.
pub open spec fn relation_rows(ids: Seq<u64>) -> Seq<Seq<QueryValueView>> {
    ids.map_values(|k: u64| seq![QueryValueView::Relation(k)])
}

/// The visible elements carrying label `label`.
pub open spec fn label_members(state: DatabaseState, label: u64) -> Set<u64> {
    Set::new(|k: u64| state.elements_v().contains_key(k) && state.elements_v()[k].labels.contains(label))
}

/// The visible relations of type `relation_type`.
pub open spec fn type_members(state: DatabaseState, relation_type: u64) -> Set<u64> {
    Set::new(
        |k: u64| state.relations_v().contains_key(k) && state.relations_v()[k].relation_type == Some(relation_type),
    )
}

/// The graph view a projection id names in the catalog, or why it has none.
pub open spec fn graph_of(state: DatabaseState, projection: u64) -> Result<crate::projection::GraphView, DbError> {
    match projection_entry(state.catalog_v().projections@, ProjectionId(projection)) {
        None => Err(DbError::UnknownProjection { id: ProjectionId(projection) }),
        Some(entry) => match entry.definition {
            ProjectionDefinition::Hypergraph(_) => Err(
                DbError::InvalidProjection { reason: "projection is not a graph" },
            ),
            ProjectionDefinition::Graph(g) => crate::projection::graph_projection_of(
                state,
                crate::projection::graph_def_view(g),
            ),
        },
    }
}

/// Copies a graph projection definition.
fn copy_graph_definition(d: &crate::catalog::GraphProjectionDefinition) -> (c:
    crate::catalog::GraphProjectionDefinition)
    ensures
        crate::projection::graph_def_view(c) == crate::projection::graph_def_view(*d),
{
    crate::catalog::GraphProjectionDefinition {
        name: d.name.clone(),
        relation_types: d.relation_types.clone(),
        source_role: d.source_role,
        target_role: d.target_role,
    }
}

/// Materializes the graph projection a catalog id names.
pub fn graph_projection(state: &DatabaseState, projection: ProjectionId) -> (r: Result<
    crate::projection::GraphProjection,
    DbError,
>)
    requires
        state.wf(),
    ensures
        match graph_of(*state, projection.0) {
            Err(e) => r == Err::<crate::projection::GraphProjection, DbError>(e),
            Ok(v) => r matches Ok(p) && p@ == v,
        },
{
    let entry = match state.catalog().projection(projection) {
        Some(e) => e,
        None => return Err(DbError::UnknownProjection { id: projection }),
    };
    match &entry.definition {
        ProjectionDefinition::Graph(g) => {
            let definition = copy_graph_definition(g);
            crate::projection::GraphProjection::from_state(state, definition)
        },
        ProjectionDefinition::Hypergraph(_) => Err(DbError::invalid_projection("projection is not a graph")),
    }
}

/// The rows a graph walk yields: one element per emitted node.
pub open spec fn walk_rows(state: DatabaseState, projection: u64, element: u64, options: Walk) -> Result<
    Seq<Seq<QueryValueView>>,
    DbError,
> {
    match graph_of(state, projection) {
        Err(e) => Err(e),
        Ok(g) => match crate::traversal::seed_locals(g, seq![ElementId(element)]) {
            Err(id) => Err(DbError::UnknownElement { id }),
            Ok(locals) => Ok(
                crate::traversal::walk_nodes(g, locals, options).map_values(
                    |p: (u64, nat)| seq![QueryValueView::Element(p.0)],
                ),
            ),
        },
    }
}

/// The rows of a directed triple scan: `(source, relation, target)` per edge,
/// in edge order.
pub open spec fn triple_rows(g: crate::projection::GraphView) -> Seq<Seq<QueryValueView>> {
    Seq::new(
        g.relations.len(),
        |e: int|
            seq![
                QueryValueView::Element(g.elements[g.endpoints[e].0 as int]),
                QueryValueView::Relation(g.relations[e]),
                QueryValueView::Element(g.elements[g.endpoints[e].1 as int]),
            ],
    )
}

/// The rows of a catalog scan: `(projection id, name)` per projection.
pub open spec fn catalog_rows(entries: Seq<ProjectionEntry>) -> Seq<Seq<QueryValueView>> {
    entries.map_values(
        |e: ProjectionEntry|
            seq![QueryValueView::Projection(e.id.0), QueryValueView::Text(projection_name(e.definition))],
    )
}

/// The raw ids of a list of elements.
pub open spec fn raw_element_ids(ids: Seq<ElementId>) -> Seq<u64> {
    ids.map_values(|e: ElementId| e.0)
}

/// The elements whose property `key` holds `value`.
pub open spec fn value_holders(state: DatabaseState, key: u64, value: ValueView) -> Set<u64> {
    Set::new(
        |k: u64| crate::state::equal_match(state.subject_props(PropertySubject::Element(ElementId(k))), key, value),
    )
}

/// `r` holds the rows `spec` describes, or its error.
pub open spec fn rows_as(r: Result<QueryResult, DbError>, spec: Result<Seq<Seq<QueryValueView>>, DbError>) -> bool {
    match spec {
        Ok(rows) => r matches Ok(res) && res@ == rows,
        Err(e) => r == Err::<QueryResult, DbError>(e),
    }
}

/// What executing a plan against `state` yields.
pub open spec fn executed_as(state: DatabaseState, plan: PlanView, r: Result<QueryResult, DbError>) -> bool {
    match plan {
        PlanView::ElementScan => rows_as(r, Ok(element_rows(state.element_order()))),
        PlanView::RelationScan => rows_as(r, Ok(relation_rows(state.relation_order()))),
        PlanView::IncidenceScan => rows_as(
            r,
            Ok(
                state.incidence_id_order().map_values(
                    |k: u64| seq![QueryValueView::Incidence(state.incidences_v()[k])],
                ),
            ),
        ),
        PlanView::ElementLabelScan { label_id, .. } => rows_as(
            r,
            Ok(element_rows(crate::state::sorted_listing(label_members(state, label_id)))),
        ),
        PlanView::ElementPropertyEqual { key_id, value, .. } => match state.family_lookup_error(
            PropertyKeyId(key_id),
            PropertyFamily::Element,
            value,
        ) {
            Some(e) => r == Err::<QueryResult, DbError>(e),
            None => rows_as(r, Ok(element_rows(crate::state::sorted_listing(value_holders(state, key_id, value))))),
        },
        PlanView::RelationTypeScan { relation_type_id, .. } => rows_as(
            r,
            Ok(relation_rows(crate::state::sorted_listing(type_members(state, relation_type_id)))),
        ),
        PlanView::GraphWalk { projection, element, options } => rows_as(
            r,
            walk_rows(state, projection, element, options),
        ),
        PlanView::CypherDirectedTriples { projection } => rows_as(
            r,
            match graph_of(state, projection) {
                Err(e) => Err(e),
                Ok(g) => Ok(triple_rows(g)),
            },
        ),
        PlanView::CatalogScan => rows_as(r, Ok(catalog_rows(state.catalog_v().projections@))),
    }
}

/// One single-element row per element id.
fn element_id_rows(ids: &Vec<ElementId>) -> (rows: Vec<QueryRow>)
    ensures
        rows@.map_values(|row: QueryRow| row@) == element_rows(ids@.map_values(|e: ElementId| e.0)),
{
    let mut out: Vec<QueryRow> = Vec::new();
    let mut i: usize = 0;
    while i < ids.len()
        invariant
            i <= ids@.len(),
            out@.len() == i,
            forall|j: int| 0 <= j < i ==> (#[trigger] out@[j])@ == seq![QueryValueView::Element(ids@[j].0)],
        decreases ids@.len() - i,
    {
        out.push(QueryRow::single(QueryValue::Element(ids[i])));
        i = i + 1;
    }
    proof {
        assert(out@.map_values(|row: QueryRow| row@) =~= element_rows(ids@.map_values(|e: ElementId| e.0)));
    }
    out
}

/// One single-relation row per relation id.
fn relation_id_rows(ids: &Vec<RelationId>) -> (rows: Vec<QueryRow>)
    ensures
        rows@.map_values(|row: QueryRow| row@) == relation_rows(ids@.map_values(|e: RelationId| e.0)),
{
    let mut out: Vec<QueryRow> = Vec::new();
    let mut i: usize = 0;
    while i < ids.len()
        invariant
            i <= ids@.len(),
            out@.len() == i,
            forall|j: int| 0 <= j < i ==> (#[trigger] out@[j])@ == seq![QueryValueView::Relation(ids@[j].0)],
        decreases ids@.len() - i,
    {
        out.push(QueryRow::single(QueryValue::Relation(ids[i])));
        i = i + 1;
    }
    proof {
        assert(out@.map_values(|row: QueryRow| row@) =~= relation_rows(ids@.map_values(|e: RelationId| e.0)));
    }
    out
}

/// The ids of a strictly ascending id list are its ascending listing.
proof fn lemma_ascending_ids(ids: Seq<u64>, set: Set<u64>)
    requires
        forall|a: int, b: int| 0 <= a < b < ids.len() ==> ids[a] < ids[b],
        forall|k: u64| #[trigger] ids.contains(k) <==> set.contains(k),
    ensures
        crate::state::sorted_listing(set) == ids,
{
    assert(ids.to_set() =~= set);
    crate::state::lemma_sorted_listing(ids);
}

/// Scans the elements carrying a label, ascending.
fn scan_elements_with_label(state: &DatabaseState, label: LabelId) -> (rows: Vec<QueryRow>)
    requires
        state.wf(),
    ensures
        rows@.map_values(|row: QueryRow| row@) == element_rows(crate::state::sorted_listing(label_members(*state, label.0))),
{
    let ids = state.elements_with_label(label);
    proof {
        let raw = ids@.map_values(|e: ElementId| e.0);
        assert forall|k: u64| #[trigger] raw.contains(k) <==> label_members(*state, label.0).contains(k) by {
            if raw.contains(k) {
                let t = choose|t: int| 0 <= t < raw.len() && raw[t] == k;
                assert(ids@.contains(ids@[t]));
            }
            if label_members(*state, label.0).contains(k) {
                assert(ids@.contains(ElementId(k)));
                let t = choose|t: int| 0 <= t < ids@.len() && ids@[t] == ElementId(k);
                assert(raw[t] == k);
            }
        }
        lemma_ascending_ids(raw, label_members(*state, label.0));
    }
    element_id_rows(&ids)
}

/// Scans the relations of a type, ascending.
fn scan_relations_with_type(state: &DatabaseState, relation_type: RelationTypeId) -> (rows: Vec<QueryRow>)
    requires
        state.wf(),
    ensures
        rows@.map_values(|row: QueryRow| row@) == relation_rows(
            crate::state::sorted_listing(type_members(*state, relation_type.0)),
        ),
{
    let ids = state.relations_with_type(relation_type);
    proof {
        let raw = ids@.map_values(|e: RelationId| e.0);
        assert forall|k: u64| #[trigger] raw.contains(k) <==> type_members(*state, relation_type.0).contains(k) by {
            if raw.contains(k) {
                let t = choose|t: int| 0 <= t < raw.len() && raw[t] == k;
                assert(ids@.contains(ids@[t]));
            }
            if type_members(*state, relation_type.0).contains(k) {
                assert(ids@.contains(RelationId(k)));
                let t = choose|t: int| 0 <= t < ids@.len() && ids@[t] == RelationId(k);
                assert(raw[t] == k);
            }
        }
        lemma_ascending_ids(raw, type_members(*state, relation_type.0));
    }
    relation_id_rows(&ids)
}


/// Scans the elements whose property `key` equals `value`, after checking
/// the value against the key's family and type.
fn scan_elements_with_property(state: &DatabaseState, key: PropertyKeyId, value: &PropertyValue) -> (r: Result<
    QueryResult,
    DbError,
>)
    requires
        state.wf(),
    ensures
        executed_as(*state, PlanView::ElementPropertyEqual { key: Seq::empty(), key_id: key.0, value: value@ }, r),
{
    let subjects = match state.typed_property_equal_for_family(key, PropertyFamily::Element, value) {
        Ok(s) => s,
        Err(e) => return Err(e),
    };
    let mut hits: Vec<ElementId> = Vec::new();
    let mut i: usize = 0;
    while i < subjects.len()
        invariant
            i <= subjects@.len(),
            crate::state::subjects_ascending(subjects@),
            crate::state::ascending(raw_element_ids(hits@)),
            forall|k: u64| #[trigger]
                raw_element_ids(hits@).contains(k) <==> subjects@.take(i as int).contains(
                    PropertySubject::Element(ElementId(k)),
                ),
            forall|t: int|
                #![trigger hits@[t]]
                0 <= t < hits@.len() ==> exists|x: int|
                    0 <= x < i && #[trigger] subjects@[x] == PropertySubject::Element(hits@[t]),
        decreases subjects@.len() - i,
    {
        let subject = subjects[i];
        let ghost before = hits@;
        let ghost t0 = subjects@.take(i as int);
        let ghost t1 = subjects@.take(i + 1);
        proof {
            assert forall|x: PropertySubject| #[trigger] t1.contains(x) <==> (t0.contains(x) || x == subject) by {
                if t1.contains(x) {
                    let q = choose|q: int| 0 <= q < t1.len() && t1[q] == x;
                    if q < i {
                        assert(t0[q] == x);
                    }
                }
                if t0.contains(x) {
                    let q = choose|q: int| 0 <= q < t0.len() && t0[q] == x;
                    assert(t1[q] == x);
                }
                if x == subject {
                    assert(t1[i as int] == subject);
                }
            }
        }
        match subject {
            PropertySubject::Element(id) => {
                hits.push(id);
                proof {
                    let raw0 = raw_element_ids(before);
                    let raw = raw_element_ids(hits@);
                    assert(raw =~= raw0.push(id.0));
                    assert forall|t: int| 0 <= t < before.len() implies raw0[t] < id.0 by {
                        let x = choose|x: int| 0 <= x < i && #[trigger] subjects@[x] == PropertySubject::Element(before[t]);
                        assert(crate::state::key_pair_lt(
                            crate::state::subject_key(subjects@[x]),
                            crate::state::subject_key(subjects@[i as int]),
                        ));
                    }
                    assert forall|a: int, b: int| 0 <= a < b < raw.len() implies raw[a] < raw[b] by {
                        if b == before.len() {
                            assert(raw[a] == raw0[a]);
                        } else {
                            assert(raw[a] == raw0[a] && raw[b] == raw0[b]);
                        }
                    }
                    assert forall|k: u64| #[trigger] raw.contains(k) <==> t1.contains(
                        PropertySubject::Element(ElementId(k)),
                    ) by {
                        if raw.contains(k) {
                            let q = choose|q: int| 0 <= q < raw.len() && raw[q] == k;
                            if q < before.len() {
                                assert(raw0[q] == k);
                                assert(raw0.contains(k));
                            }
                        }
                        if raw0.contains(k) {
                            let q = choose|q: int| 0 <= q < raw0.len() && raw0[q] == k;
                            assert(raw[q] == k);
                        }
                        if k == id.0 {
                            assert(raw[before.len() as int] == k);
                        }
                    }
                    assert forall|t: int| #![trigger hits@[t]] 0 <= t < hits@.len() implies exists|x: int|
                        0 <= x < i + 1 && #[trigger] subjects@[x] == PropertySubject::Element(hits@[t]) by {
                        if t < before.len() {
                            assert(hits@[t] == before[t]);
                            let x = choose|x: int| 0 <= x < i && #[trigger] subjects@[x] == PropertySubject::Element(before[t]);
                        } else {
                            assert(subjects@[i as int] == PropertySubject::Element(hits@[t]));
                        }
                    }
                }
            },
            _ => {
                proof {
                    assert forall|k: u64| #[trigger] raw_element_ids(hits@).contains(k) <==> t1.contains(
                        PropertySubject::Element(ElementId(k)),
                    ) by {}
                }
            },
        }
        i = i + 1;
    }
    proof {
        assert(subjects@.take(i as int) =~= subjects@);
    }
    let rows = element_id_rows(&hits);
    let res = QueryResult::new(rows);
    proof {
        let raw = raw_element_ids(hits@);
        let set = value_holders(*state, key.0, value@);
        assert forall|k: u64| #[trigger] raw.to_set().contains(k) <==> set.contains(k) by {
            assert(raw.to_set().contains(k) == raw.contains(k));
        }
        assert(raw.to_set() =~= set);
        crate::state::lemma_sorted_listing(raw);
        assert(res@ == element_rows(raw));
    }
    Ok(res)
}

/// Scans every visible element, ascending.
fn scan_elements(state: &DatabaseState) -> (rows: Vec<QueryRow>)
    requires
        state.wf(),
    ensures
        rows@.map_values(|row: QueryRow| row@) == element_rows(state.element_order()),
{
    let ids = state.element_listing();
    element_id_rows(&ids)
}

/// Scans every visible relation, ascending.
fn scan_relations(state: &DatabaseState) -> (rows: Vec<QueryRow>)
    requires
        state.wf(),
    ensures
        rows@.map_values(|row: QueryRow| row@) == relation_rows(state.relation_order()),
{
    let listing = state.relation_listing();
    let mut out: Vec<QueryRow> = Vec::new();
    let mut i: usize = 0;
    while i < listing.len()
        invariant
            i <= listing@.len(),
            listing@.len() == state.relation_order().len(),
            forall|t: int| 0 <= t < listing@.len() ==> (#[trigger] listing@[t]).0.0 == state.relation_order()[t],
            out@.len() == i,
            forall|j: int| 0 <= j < i ==> (#[trigger] out@[j])@ == seq![QueryValueView::Relation(state.relation_order()[j])],
        decreases listing@.len() - i,
    {
        out.push(QueryRow::single(QueryValue::Relation(listing[i].0)));
        i = i + 1;
    }
    proof {
        assert(out@.map_values(|row: QueryRow| row@) =~= relation_rows(state.relation_order()));
    }
    out
}

/// Scans every visible incidence, ascending by id.
fn scan_incidences(state: &DatabaseState) -> (rows: Vec<QueryRow>)
    requires
        state.wf(),
    ensures
        rows@.map_values(|row: QueryRow| row@) == state.incidence_id_order().map_values(
            |k: u64| seq![QueryValueView::Incidence(state.incidences_v()[k])],
        ),
{
    let records = state.incidence_listing();
    let mut out: Vec<QueryRow> = Vec::new();
    let mut i: usize = 0;
    while i < records.len()
        invariant
            i <= records@.len(),
            out@.len() == i,
            forall|j: int| 0 <= j < i ==> (#[trigger] out@[j])@ == seq![QueryValueView::Incidence(records@[j])],
        decreases records@.len() - i,
    {
        out.push(QueryRow::single(QueryValue::Incidence(records[i])));
        i = i + 1;
    }
    proof {
        assert(out@.map_values(|row: QueryRow| row@) =~= state.incidence_id_order().map_values(
            |k: u64| seq![QueryValueView::Incidence(state.incidences_v()[k])],
        ));
    }
    out
}

/// Scans the catalog projections in registration order.
fn scan_catalog(state: &DatabaseState) -> (rows: Vec<QueryRow>)
    ensures
        rows@.map_values(|row: QueryRow| row@) == catalog_rows(state.catalog_v().projections@),
{
    let entries = &state.catalog().projections;
    let mut out: Vec<QueryRow> = Vec::new();
    let mut i: usize = 0;
    while i < entries.len()
        invariant
            i <= entries@.len(),
            *entries == state.catalog_v().projections,
            out@.len() == i,
            forall|j: int| 0 <= j < i ==> (#[trigger] out@[j])@ == seq![
                QueryValueView::Projection(entries@[j].id.0),
                QueryValueView::Text(projection_name(entries@[j].definition)),
            ],
        decreases entries@.len() - i,
    {
        let entry = &entries[i];
        let name = entry.definition.name().clone();
        let row = QueryRow { values: vec![QueryValue::Projection(entry.id), QueryValue::Text(name)] };
        proof {
            assert(row@ =~= seq![
                QueryValueView::Projection(entry.id.0),
                QueryValueView::Text(projection_name(entry.definition)),
            ]);
        }
        out.push(row);
        i = i + 1;
    }
    proof {
        assert(out@.map_values(|row: QueryRow| row@) =~= catalog_rows(state.catalog_v().projections@));
    }
    out
}

/// Executes a graph walk from one element.
fn execute_graph_walk(state: &DatabaseState, projection: ProjectionId, element: ElementId, options: Walk) -> (r:
    Result<QueryResult, DbError>)
    requires
        state.wf(),
    ensures
        rows_as(r, walk_rows(*state, projection.0, element.0, options)),
{
    let graph = match graph_projection(state, projection) {
        Ok(g) => g,
        Err(e) => return Err(e),
    };
    let seeds: Vec<ElementId> = vec![element];
    proof {
        assert(seeds@ =~= seq![ElementId(element.0)]);
    }
    let walked = match crate::traversal::walk_graph_projection(&graph, seeds.as_slice(), options) {
        Ok(sg) => sg,
        Err(e) => return Err(e),
    };
    let nodes = walked.nodes();
    let mut rows: Vec<QueryRow> = Vec::new();
    let mut i: usize = 0;
    while i < nodes.len()
        invariant
            i <= nodes@.len(),
            rows@.len() == i,
            forall|j: int| 0 <= j < i ==> (#[trigger] rows@[j])@ == seq![QueryValueView::Element(nodes@[j].element.0)],
        decreases nodes@.len() - i,
    {
        rows.push(QueryRow::single(QueryValue::Element(nodes[i].element)));
        i = i + 1;
    }
    proof {
        assert(rows@.map_values(|row: QueryRow| row@) =~= crate::traversal::node_views(nodes@).map_values(
            |p: (u64, nat)| seq![QueryValueView::Element(p.0)],
        ));
    }
    Ok(QueryResult::new(rows))
}

/// Executes the directed triple scan of a graph projection.
fn execute_cypher_triples(state: &DatabaseState, projection: ProjectionId) -> (r: Result<QueryResult, DbError>)
    requires
        state.wf(),
    ensures
        rows_as(
            r,
            match graph_of(*state, projection.0) {
                Err(e) => Err(e),
                Ok(g) => Ok(triple_rows(g)),
            },
        ),
{
    let graph = match graph_projection(state, projection) {
        Ok(g) => g,
        Err(e) => return Err(e),
    };
    graph.check_structure();
    let m = graph.relation_count();
    let mut rows: Vec<QueryRow> = Vec::new();
    let mut e: usize = 0;
    while e < m
        invariant
            e <= m,
            m == graph@.relations.len(),
            crate::projection::graph_wf(graph@),
            rows@.len() == e,
            forall|j: int| 0 <= j < e ==> (#[trigger] rows@[j])@ == triple_rows(graph@)[j],
        decreases m - e,
    {
        let edge = crate::projection::ProjectionRelationId::new(e as u32);
        let source = graph.canonical_element_id(graph.source(edge));
        let relation = graph.canonical_relation_id(edge);
        let target = graph.canonical_element_id(graph.target(edge));
        let row = QueryRow {
            values: vec![QueryValue::Element(source), QueryValue::Relation(relation), QueryValue::Element(target)],
        };
        proof {
            assert(row@ =~= triple_rows(graph@)[e as int]);
        }
        rows.push(row);
        e = e + 1;
    }
    proof {
        assert(rows@.map_values(|row: QueryRow| row@) =~= triple_rows(graph@));
    }
    Ok(QueryResult::new(rows))
}

/// Executes a physical plan against `state`.
#[verifier::rlimit(30)]
pub fn execute_plan(plan: &QueryPlan, state: &DatabaseState) -> (r: Result<QueryResult, DbError>)
    requires
        state.wf(),
    ensures
        executed_as(*state, plan@, r),
{
    match plan {
        QueryPlan::ElementScan => Ok(QueryResult::new(scan_elements(state))),
        QueryPlan::RelationScan => Ok(QueryResult::new(scan_relations(state))),
        QueryPlan::IncidenceScan => Ok(QueryResult::new(scan_incidences(state))),
        QueryPlan::ElementLabelScan { label_id, .. } => Ok(QueryResult::new(scan_elements_with_label(state, *label_id))),
        QueryPlan::ElementPropertyEqual { key_id, value, .. } => scan_elements_with_property(state, *key_id, value),
        QueryPlan::RelationTypeScan { relation_type_id, .. } => Ok(
            QueryResult::new(scan_relations_with_type(state, *relation_type_id)),
        ),
        QueryPlan::GraphWalk { projection, element, options } => execute_graph_walk(
            state,
            *projection,
            *element,
            *options,
        ),
        QueryPlan::CypherDirectedTriples { projection } => execute_cypher_triples(state, *projection),
        QueryPlan::CatalogScan => Ok(QueryResult::new(scan_catalog(state))),
    }
}


/// Reads a trimmed query in `language`.
pub open spec fn parse_query(language: QueryLanguage, t: Seq<char>) -> Result<LogicalView, Seq<char>> {
    match language {
        QueryLanguage::Oxql => oxql_query(split_ws(t)),
        QueryLanguage::Cypher => cypher_query(t),
    }
}

/// A prepared query: its language, its trimmed text, and its plan.
#[derive(Clone, Debug, PartialEq, Eq)]
pub struct PreparedQuery {
    /// Source language.
    language: QueryLanguage,
    /// Trimmed query text.
    text: String,
    /// Physical plan.
    plan: QueryPlan,
}

/// What preparing `query` in `language` against `state` yields: the empty
/// query error, the unsupported-query reason of parsing or binding, a
/// binding error, or the prepared query.
pub open spec fn prepared_as(
    state: DatabaseState,
    language: QueryLanguage,
    query: Seq<char>,
    r: Result<PreparedQuery, DbError>,
) -> bool {
    let t = crate::text::trim_ws(query);
    if t.len() == 0 {
        r == Err::<PreparedQuery, DbError>(DbError::EmptyQuery)
    } else {
        match parse_query(language, t) {
            Err(m) => unsupported_is(r, m),
            Ok(op) => match binding(state, op) {
                Err(Ok(e)) => r == Err::<PreparedQuery, DbError>(e),
                Err(Err(m)) => unsupported_is(r, m),
                Ok(p) => r matches Ok(q) && q.language_v() == language && q.text_v() == t && q.plan_v() == p,
            },
        }
    }
}

impl PreparedQuery {
    /// The source language.
    pub closed spec fn language_v(&self) -> QueryLanguage {
        self.language
    }

    /// The trimmed query text.
    pub closed spec fn text_v(&self) -> Seq<char> {
        self.text@
    }

    /// The plan's content.
    pub closed spec fn plan_v(&self) -> PlanView {
        self.plan@
    }

    /// Parses and prepares one query string against the current catalog.
    pub fn prepare(language: QueryLanguage, query: &str, state: &DatabaseState) -> (r: Result<PreparedQuery, DbError>)
        ensures
            prepared_as(*state, language, query@, r),
    {
        let trimmed = crate::text::trim(query);
        if trimmed.unicode_len() == 0 {
            return Err(DbError::EmptyQuery);
        }
        let logical = match language {
            QueryLanguage::Oxql => parse_oxql(trimmed),
            QueryLanguage::Cypher => parse_cypher(trimmed),
        };
        let op = match logical {
            Ok(op) => op,
            Err(e) => return Err(e),
        };
        let plan = match bind_and_lower(op, state) {
            Ok(p) => p,
            Err(e) => return Err(e),
        };
        Ok(PreparedQuery { language, text: trimmed.to_owned(), plan })
    }

    /// Returns the query language.
    pub fn language(&self) -> (l: QueryLanguage)
        ensures
            l == self.language_v(),
    {
        self.language
    }

    /// Returns the trimmed query text.
    pub fn text(&self) -> (t: &str)
        ensures
            t@ == self.text_v(),
    {
        self.text.as_str()
    }

    /// Returns a stable physical explanation.
    pub fn explain(&self) -> (s: String)
        ensures
            s@ == explain_text(self.plan_v()),
    {
        explain_plan(&self.plan)
    }

    /// Executes this prepared plan.
    pub fn execute(&self, state: &DatabaseState) -> (r: Result<QueryResult, DbError>)
        requires
            state.wf(),
        ensures
            executed_as(*state, self.plan_v(), r),
    {
        execute_plan(&self.plan, state)
    }
}

} // verus!
