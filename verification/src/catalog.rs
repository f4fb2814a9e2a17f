//! Catalog metadata: roles, labels, relation types, property keys,
//! projections, and indexes.
//!
//! Every namespace is register-only: an entry carries a unique id and a name
//! unique within its namespace, and entries keep registration order.
use crate::error::DbError;
use crate::id::{IndexId, LabelId, ProjectionId, PropertyKeyId, RelationTypeId, RoleId};
use crate::value::PropertyType;
use std::collections::BTreeSet;
use vstd::prelude::*;

verus! {

/// Subject family that owns a property key.
#[derive(Clone, Copy, Debug, PartialEq, Eq, Structural, Hash, PartialOrd, Ord)]
pub enum PropertyFamily {
    /// Element properties.
    Element,
    /// Relation properties.
    Relation,
    /// Incidence properties.
    Incidence,
}

/// One named catalog entry (role, label, or relation type).
#[derive(Clone, Debug)]
pub struct NamedEntry {
    /// Raw catalog id.
    pub id: u64,
    /// Registered name.
    pub name: String,
}

/// One property-key declaration.
#[derive(Clone, Debug)]
pub struct PropertyKeyDefinition {
    /// Property-key id.
    pub id: PropertyKeyId,
    /// Registered name.
    pub name: String,
    /// Owning subject family.
    pub family: PropertyFamily,
    /// Declared value type.
    pub value_type: PropertyType,
}

/// A binary graph projection over a set of relation types.
#[derive(Clone, Debug)]
pub struct GraphProjectionDefinition {
    /// Projection name.
    pub name: String,
    /// Raw relation-type ids whose relations become edges; empty selects every
    /// untyped relation and every relation of any type.
    pub relation_types: BTreeSet<u64>,
    /// Incidence role of the edge source.
    pub source_role: RoleId,
    /// Incidence role of the edge target.
    pub target_role: RoleId,
}

/// A directed hypergraph projection over a set of relation types.
#[derive(Clone, Debug)]
pub struct HypergraphProjectionDefinition {
    /// Projection name.
    pub name: String,
    /// Raw relation-type ids whose relations become hyperedges.
    pub relation_types: BTreeSet<u64>,
    /// Raw incidence role ids on the source side.
    pub source_roles: BTreeSet<u64>,
    /// Raw incidence role ids on the target side.
    pub target_roles: BTreeSet<u64>,
}

/// A projection declaration.
#[derive(Clone, Debug)]
pub enum ProjectionDefinition {
    /// Binary graph projection.
    Graph(GraphProjectionDefinition),
    /// Directed hypergraph projection.
    Hypergraph(HypergraphProjectionDefinition),
}

/// The content of a projection definition: names as characters, id sets as
/// sets of raw ids.
pub enum ProjectionView {
    /// Binary graph projection.
    Graph {
        /// Projection name.
        name: Seq<char>,
        /// Selected relation types.
        relation_types: Set<u64>,
        /// Source role.
        source_role: u64,
        /// Target role.
        target_role: u64,
    },
    /// Directed hypergraph projection.
    Hypergraph {
        /// Projection name.
        name: Seq<char>,
        /// Selected relation types.
        relation_types: Set<u64>,
        /// Source-side roles.
        source_roles: Set<u64>,
        /// Target-side roles.
        target_roles: Set<u64>,
    },
}

impl View for ProjectionDefinition {
    type V = ProjectionView;

    open spec fn view(&self) -> ProjectionView {
        match self {
            ProjectionDefinition::Graph(g) => ProjectionView::Graph {
                name: g.name@,
                relation_types: g.relation_types@,
                source_role: g.source_role.0,
                target_role: g.target_role.0,
            },
            ProjectionDefinition::Hypergraph(h) => ProjectionView::Hypergraph {
                name: h.name@,
                relation_types: h.relation_types@,
                source_roles: h.source_roles@,
                target_roles: h.target_roles@,
            },
        }
    }
}

/// The content of an index definition.
pub enum IndexView {
    /// Label membership index.
    Label(u64),
    /// Relation-type membership index.
    RelationType(u64),
    /// Single-key equality index.
    PropertyEquality(u64),
    /// Single-key range index.
    PropertyRange(u64),
    /// Composite equality index.
    CompositeEquality(Seq<u64>),
    /// Projection-materialization index.
    Projection(u64),
}

impl View for IndexDefinition {
    type V = IndexView;

    open spec fn view(&self) -> IndexView {
        match self {
            IndexDefinition::Label { label } => IndexView::Label(label.0),
            IndexDefinition::RelationType { relation_type } => IndexView::RelationType(
                relation_type.0,
            ),
            IndexDefinition::PropertyEquality { key } => IndexView::PropertyEquality(key.0),
            IndexDefinition::PropertyRange { key } => IndexView::PropertyRange(key.0),
            IndexDefinition::CompositeEquality { keys } => IndexView::CompositeEquality(
                keys@.map_values(|k: PropertyKeyId| k.0),
            ),
            IndexDefinition::Projection { projection } => IndexView::Projection(projection.0),
        }
    }
}

/// The name a projection definition carries.
pub open spec fn projection_name(definition: ProjectionDefinition) -> Seq<char> {
    match definition {
        ProjectionDefinition::Graph(g) => g.name@,
        ProjectionDefinition::Hypergraph(h) => h.name@,
    }
}

impl ProjectionDefinition {
    /// Returns the projection name.
    pub fn name(&self) -> (name: &String)
        ensures
            name@ == projection_name(*self),
    {
        match self {
            ProjectionDefinition::Graph(g) => &g.name,
            ProjectionDefinition::Hypergraph(h) => &h.name,
        }
    }
}

/// An index declaration.
#[derive(Clone, Debug)]
pub enum IndexDefinition {
    /// Label membership index.
    Label {
        /// Indexed label.
        label: LabelId,
    },
    /// Relation-type membership index.
    RelationType {
        /// Indexed relation type.
        relation_type: RelationTypeId,
    },
    /// Single-key equality index.
    PropertyEquality {
        /// Indexed key.
        key: PropertyKeyId,
    },
    /// Single-key range index.
    PropertyRange {
        /// Indexed key.
        key: PropertyKeyId,
    },
    /// Composite equality index over an ordered key tuple.
    CompositeEquality {
        /// Indexed keys in tuple order.
        keys: Vec<PropertyKeyId>,
    },
    /// Projection-materialization index.
    Projection {
        /// Materialized projection.
        projection: ProjectionId,
    },
}

/// One registered projection.
#[derive(Clone, Debug)]
pub struct ProjectionEntry {
    /// Projection id.
    pub id: ProjectionId,
    /// Declaration.
    pub definition: ProjectionDefinition,
}

/// One registered index.
#[derive(Clone, Debug)]
pub struct IndexEntry {
    /// Index id.
    pub id: IndexId,
    /// Registered name.
    pub name: String,
    /// Declaration.
    pub definition: IndexDefinition,
}

/// Catalog metadata.
#[derive(Clone, Debug)]
pub struct Catalog {
    /// Roles in registration order.
    pub roles: Vec<NamedEntry>,
    /// Labels in registration order.
    pub labels: Vec<NamedEntry>,
    /// Relation types in registration order.
    pub relation_types: Vec<NamedEntry>,
    /// Property keys in registration order.
    pub property_keys: Vec<PropertyKeyDefinition>,
    /// Projections in registration order.
    pub projections: Vec<ProjectionEntry>,
    /// Indexes in registration order.
    pub indexes: Vec<IndexEntry>,
}

/// Whether a named namespace holds `id`.
pub open spec fn named_has_id(entries: Seq<NamedEntry>, id: u64) -> bool {
    exists|i: int| 0 <= i < entries.len() && entries[i].id == id
}

/// Whether a named namespace holds `name`.
pub open spec fn named_has_name(entries: Seq<NamedEntry>, name: Seq<char>) -> bool {
    exists|i: int| 0 <= i < entries.len() && entries[i].name@ == name
}

/// Whether the property-key namespace holds `id`.
pub open spec fn keys_have_id(entries: Seq<PropertyKeyDefinition>, id: u64) -> bool {
    exists|i: int| 0 <= i < entries.len() && entries[i].id.0 == id
}

/// The declaration of key `id`, if registered (the first match).
pub open spec fn key_definition(entries: Seq<PropertyKeyDefinition>, id: u64) -> Option<PropertyKeyDefinition>
    decreases entries.len(),
{
    if entries.len() == 0 {
        None
    } else if entries[0].id.0 == id {
        Some(entries[0])
    } else {
        key_definition(entries.drop_first(), id)
    }
}

/// Finds the position of `id` in a named namespace.
fn find_named_id(entries: &Vec<NamedEntry>, id: u64) -> (pos: Option<usize>)
    ensures
        match pos {
            Some(i) => i < entries@.len() && entries@[i as int].id == id && forall|j: int|
                0 <= j < i ==> entries@[j].id != id,
            None => !named_has_id(entries@, id),
        },
{
    let mut i: usize = 0;
    while i < entries.len()
        invariant
            i <= entries@.len(),
            forall|j: int| 0 <= j < i ==> entries@[j].id != id,
        decreases entries@.len() - i,
    {
        if entries[i].id == id {
            return Some(i);
        }
        i = i + 1;
    }
    None
}

/// Finds the position of `name` in a named namespace.
fn find_named_name(entries: &Vec<NamedEntry>, name: &String) -> (pos: Option<usize>)
    ensures
        match pos {
            Some(i) => i < entries@.len() && entries@[i as int].name@ == name@ && forall|j: int|
                0 <= j < i ==> entries@[j].name@ != name@,
            None => !named_has_name(entries@, name@),
        },
{
    let mut i: usize = 0;
    while i < entries.len()
        invariant
            i <= entries@.len(),
            forall|j: int| 0 <= j < i ==> entries@[j].name@ != name@,
        decreases entries@.len() - i,
    {
        if entries[i].name == *name {
            return Some(i);
        }
        i = i + 1;
    }
    None
}

/// Registers `(id, name)` in a named namespace, rejecting a taken name or id.
fn insert_named(entries: &mut Vec<NamedEntry>, id: u64, name: String) -> (r: Result<(), DbError>)
    ensures
        named_has_name(old(entries)@, name@) ==> r == Err::<(), DbError>(
            DbError::DuplicateCatalogName { name },
        ) && final(entries)@ == old(entries)@,
        !named_has_name(old(entries)@, name@) && named_has_id(old(entries)@, id) ==> r == Err::<
            (),
            DbError,
        >(DbError::DuplicateCatalogId) && final(entries)@ == old(entries)@,
        !named_has_name(old(entries)@, name@) && !named_has_id(old(entries)@, id) ==> r == Ok::<
            (),
            DbError,
        >(()) && final(entries)@ == old(entries)@.push(NamedEntry { id, name }),
{
    if find_named_name(entries, &name).is_some() {
        return Err(DbError::DuplicateCatalogName { name });
    }
    if find_named_id(entries, id).is_some() {
        return Err(DbError::DuplicateCatalogId);
    }
    entries.push(NamedEntry { id, name });
    Ok(())
}

/// Looks up the id registered under `name` in a named namespace.
fn named_id_of(entries: &Vec<NamedEntry>, name: &str) -> (id: Option<u64>)
    ensures
        match id {
            Some(v) => exists|i: int|
                0 <= i < entries@.len() && entries@[i].name@ == name@ && entries@[i].id == v,
            None => !named_has_name(entries@, name@),
        },
        id == named_lookup(entries@, name@),
{
    let query = name.to_owned();
    match find_named_name(entries, &query) {
        Some(i) => {
            proof {
                lemma_first_name_index(entries@, name@, i as int);
            }
            Some(entries[i].id)
        },
        None => None,
    }
}

/// The first position of a namespace entry named `name`.
pub open spec fn first_name_index(entries: Seq<NamedEntry>, name: Seq<char>) -> int {
    choose|i: int|
        0 <= i < entries.len() && entries[i].name@ == name && forall|j: int|
            0 <= j < i ==> entries[j].name@ != name
}

/// The id registered under `name` in a namespace (its first entry), if any.
pub open spec fn named_lookup(entries: Seq<NamedEntry>, name: Seq<char>) -> Option<u64> {
    if named_has_name(entries, name) {
        Some(entries[first_name_index(entries, name)].id)
    } else {
        None
    }
}

/// The first matching position is the one `first_name_index` picks.
pub proof fn lemma_first_name_index(entries: Seq<NamedEntry>, name: Seq<char>, i: int)
    requires
        0 <= i < entries.len(),
        entries[i].name@ == name,
        forall|j: int| 0 <= j < i ==> entries[j].name@ != name,
    ensures
        first_name_index(entries, name) == i,
{
    let k = first_name_index(entries, name);
    if k < i {
        assert(entries[k].name@ != name);
    }
    if k > i {
        assert(entries[i].name@ != name);
    }
}

/// The id of the first property key named `name`, if any.
pub open spec fn key_lookup(keys: Seq<PropertyKeyDefinition>, name: Seq<char>) -> Option<PropertyKeyId> {
    if exists|i: int| 0 <= i < keys.len() && keys[i].name@ == name {
        let i = choose|i: int|
            0 <= i < keys.len() && keys[i].name@ == name && forall|j: int| 0 <= j < i ==> keys[j].name@ != name;
        Some(keys[i].id)
    } else {
        None
    }
}

/// The id of the first projection named `name`, if any.
pub open spec fn projection_lookup(entries: Seq<ProjectionEntry>, name: Seq<char>) -> Option<ProjectionId> {
    if exists|i: int| 0 <= i < entries.len() && projection_name(entries[i].definition) == name {
        let i = choose|i: int|
            0 <= i < entries.len() && projection_name(entries[i].definition) == name && forall|j: int|
                0 <= j < i ==> projection_name(entries[j].definition) != name;
        Some(entries[i].id)
    } else {
        None
    }
}

/// The first projection entry with id `id`, if any.
pub open spec fn projection_entry(entries: Seq<ProjectionEntry>, id: ProjectionId) -> Option<ProjectionEntry> {
    if exists|i: int| 0 <= i < entries.len() && entries[i].id == id {
        let i = choose|i: int|
            0 <= i < entries.len() && entries[i].id == id && forall|j: int| 0 <= j < i ==> entries[j].id != id;
        Some(entries[i])
    } else {
        None
    }
}

/// The content of a catalog: every entry by its view, in registration order.
pub struct CatalogView {
    /// Roles as `(id, name)`.
    pub roles: Seq<(u64, Seq<char>)>,
    /// Labels as `(id, name)`.
    pub labels: Seq<(u64, Seq<char>)>,
    /// Relation types as `(id, name)`.
    pub relation_types: Seq<(u64, Seq<char>)>,
    /// Property keys as `(id, name, family, value type)`.
    pub property_keys: Seq<(u64, Seq<char>, PropertyFamily, PropertyType)>,
    /// Projections as `(id, definition)`.
    pub projections: Seq<(u64, ProjectionView)>,
    /// Indexes as `(id, name, definition)`.
    pub indexes: Seq<(u64, Seq<char>, IndexView)>,
}

/// The views of the entries of a named namespace.
pub open spec fn named_views(entries: Seq<NamedEntry>) -> Seq<(u64, Seq<char>)> {
    entries.map_values(|e: NamedEntry| (e.id, e.name@))
}

/// The views of property-key declarations.
pub open spec fn key_views(entries: Seq<PropertyKeyDefinition>) -> Seq<(u64, Seq<char>, PropertyFamily, PropertyType)> {
    entries.map_values(|k: PropertyKeyDefinition| (k.id.0, k.name@, k.family, k.value_type))
}

/// The views of projection entries.
pub open spec fn projection_views(entries: Seq<ProjectionEntry>) -> Seq<(u64, ProjectionView)> {
    entries.map_values(|p: ProjectionEntry| (p.id.0, p.definition@))
}

/// The views of index entries.
pub open spec fn index_views(entries: Seq<IndexEntry>) -> Seq<(u64, Seq<char>, IndexView)> {
    entries.map_values(|x: IndexEntry| (x.id.0, x.name@, x.definition@))
}

impl View for Catalog {
    type V = CatalogView;

    open spec fn view(&self) -> CatalogView {
        CatalogView {
            roles: named_views(self.roles@),
            labels: named_views(self.labels@),
            relation_types: named_views(self.relation_types@),
            property_keys: key_views(self.property_keys@),
            projections: projection_views(self.projections@),
            indexes: index_views(self.indexes@),
        }
    }
}

/// Whether `e` is what registering `(id, name)` into a namespace checked
/// name first over all its entries reports: the taken name, else the taken
/// id.
pub open spec fn named_refusal(pairs: Seq<(u64, Seq<char>)>, id: u64, name: Seq<char>, e: DbError) -> bool {
    if exists|i: int| 0 <= i < pairs.len() && pairs[i].1 == name {
        e matches DbError::DuplicateCatalogName { name: n } && n@ == name
    } else {
        e == DbError::DuplicateCatalogId
    }
}

/// Whether `e` is what registering `(id, name)` into a namespace checked
/// entry by entry reports: at the first entry that holds the name or the id,
/// the taken name when it holds the name, else the taken id.
pub open spec fn scan_refusal(pairs: Seq<(u64, Seq<char>)>, id: u64, name: Seq<char>, e: DbError) -> bool {
    exists|i: int|
        0 <= i < pairs.len() && (forall|j: int| 0 <= j < i ==> #[trigger] pairs[j].0 != id && pairs[j].1 != name)
            && if pairs[i].1 == name {
            e matches DbError::DuplicateCatalogName { name: n } && n@ == name
        } else {
            pairs[i].0 == id && e == DbError::DuplicateCatalogId
        }
}

/// The `(id, name)` pairs of a property-key namespace view.
pub open spec fn key_pairs(v: Seq<(u64, Seq<char>, PropertyFamily, PropertyType)>) -> Seq<(u64, Seq<char>)> {
    v.map_values(|t: (u64, Seq<char>, PropertyFamily, PropertyType)| (t.0, t.1))
}

/// The `(id, name)` pairs of a projection namespace view.
pub open spec fn projection_pairs(v: Seq<(u64, ProjectionView)>) -> Seq<(u64, Seq<char>)> {
    v.map_values(|p: (u64, ProjectionView)| (p.0, view_projection_name(p.1)))
}

/// The `(id, name)` pairs of an index namespace view.
pub open spec fn index_pairs(v: Seq<(u64, Seq<char>, IndexView)>) -> Seq<(u64, Seq<char>)> {
    v.map_values(|t: (u64, Seq<char>, IndexView)| (t.0, t.1))
}

/// The name a projection view carries.
pub open spec fn view_projection_name(d: ProjectionView) -> Seq<char> {
    match d {
        ProjectionView::Graph { name, .. } => name,
        ProjectionView::Hypergraph { name, .. } => name,
    }
}

/// Whether a named namespace view holds `name`.
pub open spec fn view_has_name(entries: Seq<(u64, Seq<char>)>, name: Seq<char>) -> bool {
    exists|i: int| 0 <= i < entries.len() && entries[i].1 == name
}

/// Whether a named namespace view holds `id`.
pub open spec fn view_has_id(entries: Seq<(u64, Seq<char>)>, id: u64) -> bool {
    exists|i: int| 0 <= i < entries.len() && entries[i].0 == id
}

/// A namespace holds a name or an id exactly when its view does.
pub proof fn lemma_named_views(entries: Seq<NamedEntry>)
    ensures
        forall|n: Seq<char>| #[trigger] named_has_name(entries, n) <==> view_has_name(named_views(entries), n),
        forall|id: u64| #[trigger] named_has_id(entries, id) <==> view_has_id(named_views(entries), id),
{
    assert forall|n: Seq<char>| #[trigger] named_has_name(entries, n) <==> view_has_name(named_views(entries), n) by {
        if named_has_name(entries, n) {
            let i = choose|i: int| 0 <= i < entries.len() && entries[i].name@ == n;
            assert(named_views(entries)[i].1 == n);
        }
        if view_has_name(named_views(entries), n) {
            let i = choose|i: int| 0 <= i < named_views(entries).len() && named_views(entries)[i].1 == n;
            assert(entries[i].name@ == n);
        }
    }
    assert forall|id: u64| #[trigger] named_has_id(entries, id) <==> view_has_id(named_views(entries), id) by {
        if named_has_id(entries, id) {
            let i = choose|i: int| 0 <= i < entries.len() && entries[i].id == id;
            assert(named_views(entries)[i].0 == id);
        }
        if view_has_id(named_views(entries), id) {
            let i = choose|i: int| 0 <= i < named_views(entries).len() && named_views(entries)[i].0 == id;
            assert(entries[i].id == id);
        }
    }
}

/// Appending an entry appends its view.
pub proof fn lemma_named_views_push(entries: Seq<NamedEntry>, e: NamedEntry)
    ensures
        named_views(entries.push(e)) == named_views(entries).push((e.id, e.name@)),
{
    assert(named_views(entries.push(e)) =~= named_views(entries).push((e.id, e.name@)));
}

/// How a catalog's entries appear in its view.
pub proof fn lemma_catalog_view_facts(c: Catalog)
    ensures
        forall|i: int| 0 <= i < c.roles@.len() ==> #[trigger] c@.roles[i] == (c.roles@[i].id, c.roles@[i].name@),
        forall|i: int|
            0 <= i < c.labels@.len() ==> #[trigger] c@.labels[i] == (c.labels@[i].id, c.labels@[i].name@),
        forall|i: int|
            0 <= i < c.relation_types@.len() ==> #[trigger] c@.relation_types[i] == (
                c.relation_types@[i].id,
                c.relation_types@[i].name@,
            ),
        forall|i: int|
            0 <= i < c.projections@.len() ==> view_projection_name(#[trigger] c@.projections[i].1)
                == projection_name(c.projections@[i].definition) && c@.projections[i].0 == c.projections@[i].id.0,
        forall|i: int|
            0 <= i < c.property_keys@.len() ==> #[trigger] c@.property_keys[i] == (
                c.property_keys@[i].id.0,
                c.property_keys@[i].name@,
                c.property_keys@[i].family,
                c.property_keys@[i].value_type,
            ),
        forall|i: int|
            0 <= i < c.indexes@.len() ==> #[trigger] c@.indexes[i] == (
                c.indexes@[i].id.0,
                c.indexes@[i].name@,
                c.indexes@[i].definition@,
            ),
        c@.roles.len() == c.roles@.len(),
        c@.labels.len() == c.labels@.len(),
        c@.relation_types.len() == c.relation_types@.len(),
        c@.property_keys.len() == c.property_keys@.len(),
        c@.projections.len() == c.projections@.len(),
        c@.indexes.len() == c.indexes@.len(),
{
}

/// Copies a named namespace entry by entry.
fn copy_named(entries: &Vec<NamedEntry>) -> (c: Vec<NamedEntry>)
    ensures
        named_views(c@) == named_views(entries@),
{
    let mut out: Vec<NamedEntry> = Vec::new();
    let mut i: usize = 0;
    while i < entries.len()
        invariant
            i <= entries@.len(),
            named_views(out@) == named_views(entries@.take(i as int)),
        decreases entries@.len() - i,
    {
        let ghost before = out@;
        out.push(NamedEntry { id: entries[i].id, name: entries[i].name.clone() });
        proof {
            assert(entries@.take(i + 1) =~= entries@.take(i as int).push(entries@[i as int]));
            assert(named_views(out@) =~= named_views(before).push((entries@[i as int].id, entries@[i as int].name@)));
            assert(named_views(entries@.take(i + 1)) =~= named_views(entries@.take(i as int)).push(
                (entries@[i as int].id, entries@[i as int].name@),
            ));
        }
        i = i + 1;
    }
    proof {
        assert(entries@.take(i as int) =~= entries@);
    }
    out
}

impl ProjectionDefinition {
    /// Copies the definition with its content.
    pub fn copy(&self) -> (c: Self)
        ensures
            c@ == self@,
    {
        match self {
            ProjectionDefinition::Graph(g) => ProjectionDefinition::Graph(
                GraphProjectionDefinition {
                    name: g.name.clone(),
                    relation_types: g.relation_types.clone(),
                    source_role: g.source_role,
                    target_role: g.target_role,
                },
            ),
            ProjectionDefinition::Hypergraph(h) => ProjectionDefinition::Hypergraph(
                HypergraphProjectionDefinition {
                    name: h.name.clone(),
                    relation_types: h.relation_types.clone(),
                    source_roles: h.source_roles.clone(),
                    target_roles: h.target_roles.clone(),
                },
            ),
        }
    }
}

impl IndexDefinition {
    /// Copies the definition with its content.
    pub fn copy(&self) -> (c: Self)
        ensures
            c@ == self@,
    {
        match self {
            IndexDefinition::Label { label } => IndexDefinition::Label { label: *label },
            IndexDefinition::RelationType { relation_type } => IndexDefinition::RelationType {
                relation_type: *relation_type,
            },
            IndexDefinition::PropertyEquality { key } => IndexDefinition::PropertyEquality { key: *key },
            IndexDefinition::PropertyRange { key } => IndexDefinition::PropertyRange { key: *key },
            IndexDefinition::CompositeEquality { keys } => {
                let mut out: Vec<PropertyKeyId> = Vec::new();
                let mut i: usize = 0;
                while i < keys.len()
                    invariant
                        i <= keys@.len(),
                        out@ == keys@.take(i as int),
                    decreases keys@.len() - i,
                {
                    out.push(keys[i]);
                    proof {
                        assert(out@ =~= keys@.take(i + 1));
                    }
                    i = i + 1;
                }
                proof {
                    assert(keys@.take(i as int) =~= keys@);
                }
                IndexDefinition::CompositeEquality { keys: out }
            },
            IndexDefinition::Projection { projection } => IndexDefinition::Projection {
                projection: *projection,
            },
        }
    }
}

impl Catalog {
    /// Copies the catalog with its content.
    pub fn copy(&self) -> (c: Self)
        ensures
            c@ == self@,
    {
        let mut keys: Vec<PropertyKeyDefinition> = Vec::new();
        let mut i: usize = 0;
        while i < self.property_keys.len()
            invariant
                i <= self.property_keys@.len(),
                key_views(keys@) == key_views(self.property_keys@.take(i as int)),
            decreases self.property_keys@.len() - i,
        {
            let k = &self.property_keys[i];
            let ghost before = keys@;
            let copy = PropertyKeyDefinition { id: k.id, name: k.name.clone(), family: k.family, value_type: k.value_type };
            keys.push(copy);
            proof {
                assert(self.property_keys@.take(i + 1) =~= self.property_keys@.take(i as int).push(*k));
                assert(key_views(keys@) =~= key_views(before).push((k.id.0, k.name@, k.family, k.value_type)));
                assert(key_views(self.property_keys@.take(i + 1)) =~= key_views(self.property_keys@.take(i as int)).push(
                    (k.id.0, k.name@, k.family, k.value_type),
                ));
            }
            i = i + 1;
        }
        proof {
            assert(self.property_keys@.take(i as int) =~= self.property_keys@);
        }
        let mut projections: Vec<ProjectionEntry> = Vec::new();
        let mut i: usize = 0;
        while i < self.projections.len()
            invariant
                i <= self.projections@.len(),
                projection_views(projections@) == projection_views(self.projections@.take(i as int)),
            decreases self.projections@.len() - i,
        {
            let p = &self.projections[i];
            let ghost before = projections@;
            projections.push(ProjectionEntry { id: p.id, definition: p.definition.copy() });
            proof {
                assert(self.projections@.take(i + 1) =~= self.projections@.take(i as int).push(*p));
                assert(projection_views(projections@) =~= projection_views(before).push((p.id.0, p.definition@)));
                assert(projection_views(self.projections@.take(i + 1)) =~= projection_views(
                    self.projections@.take(i as int),
                ).push((p.id.0, p.definition@)));
            }
            i = i + 1;
        }
        proof {
            assert(self.projections@.take(i as int) =~= self.projections@);
        }
        let mut indexes: Vec<IndexEntry> = Vec::new();
        let mut i: usize = 0;
        while i < self.indexes.len()
            invariant
                i <= self.indexes@.len(),
                index_views(indexes@) == index_views(self.indexes@.take(i as int)),
            decreases self.indexes@.len() - i,
        {
            let x = &self.indexes[i];
            let ghost before = indexes@;
            indexes.push(IndexEntry { id: x.id, name: x.name.clone(), definition: x.definition.copy() });
            proof {
                assert(self.indexes@.take(i + 1) =~= self.indexes@.take(i as int).push(*x));
                assert(index_views(indexes@) =~= index_views(before).push((x.id.0, x.name@, x.definition@)));
                assert(index_views(self.indexes@.take(i + 1)) =~= index_views(self.indexes@.take(i as int)).push(
                    (x.id.0, x.name@, x.definition@),
                ));
            }
            i = i + 1;
        }
        proof {
            assert(self.indexes@.take(i as int) =~= self.indexes@);
        }
        Catalog {
            roles: copy_named(&self.roles),
            labels: copy_named(&self.labels),
            relation_types: copy_named(&self.relation_types),
            property_keys: keys,
            projections,
            indexes,
        }
    }

    /// Creates an empty catalog.
    pub fn empty() -> (c: Catalog)
        ensures
            c.roles@.len() == 0,
            c.labels@.len() == 0,
            c.relation_types@.len() == 0,
            c.property_keys@.len() == 0,
            c.projections@.len() == 0,
            c.indexes@.len() == 0,
    {
        Catalog {
            roles: Vec::new(),
            labels: Vec::new(),
            relation_types: Vec::new(),
            property_keys: Vec::new(),
            projections: Vec::new(),
            indexes: Vec::new(),
        }
    }

    /// Registers a role; the name and id must be new.
    pub fn insert_role(&mut self, id: RoleId, name: String) -> (r: Result<(), DbError>)
        ensures
            r is Ok <==> !named_has_name(old(self).roles@, name@) && !named_has_id(
                old(self).roles@,
                id.0,
            ),
            r is Ok ==> final(self).roles@ == old(self).roles@.push(NamedEntry { id: id.0, name }),
            r is Err ==> final(self).roles@ == old(self).roles@,
            r matches Err(e) ==> named_refusal(old(self)@.roles, id.0, name@, e),
            final(self).labels == old(self).labels,
            final(self).relation_types == old(self).relation_types,
            final(self).property_keys == old(self).property_keys,
            final(self).projections == old(self).projections,
            final(self).indexes == old(self).indexes,
    {
        proof {
            lemma_named_views(self.roles@);
        }
        insert_named(&mut self.roles, id.get(), name)
    }

    /// Registers a label; the name and id must be new.
    pub fn insert_label(&mut self, id: LabelId, name: String) -> (r: Result<(), DbError>)
        ensures
            r is Ok <==> !named_has_name(old(self).labels@, name@) && !named_has_id(
                old(self).labels@,
                id.0,
            ),
            r is Ok ==> final(self).labels@ == old(self).labels@.push(NamedEntry { id: id.0, name }),
            r is Err ==> final(self).labels@ == old(self).labels@,
            r matches Err(e) ==> named_refusal(old(self)@.labels, id.0, name@, e),
            final(self).roles == old(self).roles,
            final(self).relation_types == old(self).relation_types,
            final(self).property_keys == old(self).property_keys,
            final(self).projections == old(self).projections,
            final(self).indexes == old(self).indexes,
    {
        proof {
            lemma_named_views(self.labels@);
        }
        insert_named(&mut self.labels, id.get(), name)
    }

    /// Registers a relation type; the name and id must be new.
    pub fn insert_relation_type(&mut self, id: RelationTypeId, name: String) -> (r: Result<(), DbError>)
        ensures
            r is Ok <==> !named_has_name(old(self).relation_types@, name@) && !named_has_id(
                old(self).relation_types@,
                id.0,
            ),
            r is Ok ==> final(self).relation_types@ == old(self).relation_types@.push(
                NamedEntry { id: id.0, name },
            ),
            r is Err ==> final(self).relation_types@ == old(self).relation_types@,
            r matches Err(e) ==> named_refusal(old(self)@.relation_types, id.0, name@, e),
            final(self).roles == old(self).roles,
            final(self).labels == old(self).labels,
            final(self).property_keys == old(self).property_keys,
            final(self).projections == old(self).projections,
            final(self).indexes == old(self).indexes,
    {
        proof {
            lemma_named_views(self.relation_types@);
        }
        insert_named(&mut self.relation_types, id.get(), name)
    }

    /// Returns whether role `id` is registered.
    pub fn has_role(&self, id: RoleId) -> (b: bool)
        ensures
            b == named_has_id(self.roles@, id.0),
    {
        find_named_id(&self.roles, id.get()).is_some()
    }

    /// Returns whether label `id` is registered.
    pub fn has_label(&self, id: LabelId) -> (b: bool)
        ensures
            b == named_has_id(self.labels@, id.0),
    {
        find_named_id(&self.labels, id.get()).is_some()
    }

    /// Returns whether relation type `id` is registered.
    pub fn has_relation_type(&self, id: RelationTypeId) -> (b: bool)
        ensures
            b == named_has_id(self.relation_types@, id.0),
    {
        find_named_id(&self.relation_types, id.get()).is_some()
    }

    /// Returns the role id registered under `name`.
    pub fn role_id(&self, name: &str) -> (id: Option<RoleId>)
        ensures
            match id {
                Some(v) => exists|i: int|
                    0 <= i < self.roles@.len() && self.roles@[i].name@ == name@ && self.roles@[i].id
                        == v.0,
                None => !named_has_name(self.roles@, name@),
            },
            id == match named_lookup(self.roles@, name@) {
                Some(v) => Some(RoleId(v)),
                None => None,
            },
    {
        match named_id_of(&self.roles, name) {
            Some(v) => Some(RoleId::new(v)),
            None => None,
        }
    }

    /// Returns the label id registered under `name`.
    pub fn label_id(&self, name: &str) -> (id: Option<LabelId>)
        ensures
            match id {
                Some(v) => exists|i: int|
                    0 <= i < self.labels@.len() && self.labels@[i].name@ == name@
                        && self.labels@[i].id == v.0,
                None => !named_has_name(self.labels@, name@),
            },
            id == match named_lookup(self.labels@, name@) {
                Some(v) => Some(LabelId(v)),
                None => None,
            },
    {
        match named_id_of(&self.labels, name) {
            Some(v) => Some(LabelId::new(v)),
            None => None,
        }
    }

    /// Returns the relation-type id registered under `name`.
    pub fn relation_type_id(&self, name: &str) -> (id: Option<RelationTypeId>)
        ensures
            match id {
                Some(v) => exists|i: int|
                    0 <= i < self.relation_types@.len() && self.relation_types@[i].name@ == name@
                        && self.relation_types@[i].id == v.0,
                None => !named_has_name(self.relation_types@, name@),
            },
            id == match named_lookup(self.relation_types@, name@) {
                Some(v) => Some(RelationTypeId(v)),
                None => None,
            },
    {
        match named_id_of(&self.relation_types, name) {
            Some(v) => Some(RelationTypeId::new(v)),
            None => None,
        }
    }

    /// Returns the declaration of property key `id`.
    pub fn property_key(&self, id: PropertyKeyId) -> (d: Option<&PropertyKeyDefinition>)
        ensures
            match d {
                Some(def) => key_definition(self.property_keys@, id.0) == Some(*def),
                None => key_definition(self.property_keys@, id.0).is_none(),
            },
    {
        let ghost all = self.property_keys@;
        let n = self.property_keys.len();
        let mut i: usize = 0;
        proof {
            assert(all.subrange(0, n as int) =~= all);
        }
        while i < n
            invariant
                i <= n,
                n == all.len(),
                all == self.property_keys@,
                key_definition(all, id.0) == key_definition(all.subrange(i as int, n as int), id.0),
            decreases n - i,
        {
            proof {
                let tail = all.subrange(i as int, n as int);
                assert(tail[0] == all[i as int]);
                assert(tail.drop_first() =~= all.subrange(i as int + 1, n as int));
            }
            if self.property_keys[i].id.get() == id.get() {
                return Some(&self.property_keys[i]);
            }
            i = i + 1;
        }
        None
    }

    /// Returns the property-key id registered under `name`.
    pub fn property_key_id(&self, name: &str) -> (id: Option<PropertyKeyId>)
        ensures
            match id {
                Some(v) => exists|i: int|
                    0 <= i < self.property_keys@.len() && self.property_keys@[i].name@ == name@
                        && self.property_keys@[i].id == v,
                None => forall|i: int|
                    0 <= i < self.property_keys@.len() ==> self.property_keys@[i].name@ != name@,
            },
            id == key_lookup(self.property_keys@, name@),
    {
        let query = name.to_owned();
        let mut i: usize = 0;
        while i < self.property_keys.len()
            invariant
                i <= self.property_keys@.len(),
                query@ == name@,
                forall|j: int| 0 <= j < i ==> self.property_keys@[j].name@ != name@,
            decreases self.property_keys@.len() - i,
        {
            if self.property_keys[i].name == query {
                proof {
                    let k = choose|k: int|
                        0 <= k < self.property_keys@.len() && self.property_keys@[k].name@ == name@ && forall|j: int|
                            0 <= j < k ==> self.property_keys@[j].name@ != name@;
                    if k < i {
                        assert(self.property_keys@[k].name@ != name@);
                    }
                    if k > i {
                        assert(self.property_keys@[i as int].name@ != name@);
                    }
                }
                return Some(self.property_keys[i].id);
            }
            i = i + 1;
        }
        None
    }

    /// Registers a property key; its name and id must be new.
    pub fn insert_property_key(&mut self, definition: PropertyKeyDefinition) -> (r: Result<(), DbError>)
        ensures
            r is Ok <==> (forall|i: int|
                0 <= i < old(self).property_keys@.len() ==> old(self).property_keys@[i].name@
                    != definition.name@) && !keys_have_id(old(self).property_keys@, definition.id.0),
            r is Ok ==> final(self).property_keys@ == old(self).property_keys@.push(definition),
            r is Err ==> final(self).property_keys@ == old(self).property_keys@,
            r matches Err(e) ==> scan_refusal(key_pairs(old(self)@.property_keys), definition.id.0, definition.name@, e),
            final(self).roles == old(self).roles,
            final(self).labels == old(self).labels,
            final(self).relation_types == old(self).relation_types,
            final(self).projections == old(self).projections,
            final(self).indexes == old(self).indexes,
    {
        let mut i: usize = 0;
        while i < self.property_keys.len()
            invariant
                i <= self.property_keys@.len(),
                forall|j: int|
                    0 <= j < i ==> self.property_keys@[j].name@ != definition.name@
                        && self.property_keys@[j].id.0 != definition.id.0,
            decreases self.property_keys@.len() - i,
        {
            proof {
                lemma_catalog_view_facts(*self);
                let pairs = key_pairs(self@.property_keys);
                assert(pairs[i as int] == (self.property_keys@[i as int].id.0, self.property_keys@[i as int].name@));
                assert forall|j: int| 0 <= j < i implies #[trigger] pairs[j].0 != definition.id.0 && pairs[j].1
                    != definition.name@ by {
                    assert(pairs[j] == (self.property_keys@[j].id.0, self.property_keys@[j].name@));
                }
            }
            if self.property_keys[i].name == definition.name {
                return Err(DbError::DuplicateCatalogName { name: definition.name });
            }
            if self.property_keys[i].id.get() == definition.id.get() {
                proof {
                    assert(keys_have_id(self.property_keys@, definition.id.0));
                }
                return Err(DbError::DuplicateCatalogId);
            }
            i = i + 1;
        }
        self.property_keys.push(definition);
        Ok(())
    }

    /// Registers a projection; its name and id must be new.
    pub fn insert_projection(&mut self, id: ProjectionId, definition: ProjectionDefinition) -> (r:
        Result<(), DbError>)
        ensures
            r is Ok <==> forall|i: int|
                0 <= i < old(self).projections@.len() ==> projection_name(
                    old(self).projections@[i].definition,
                ) != projection_name(definition) && old(self).projections@[i].id != id,
            r is Ok ==> final(self).projections@ == old(self).projections@.push(
                ProjectionEntry { id, definition },
            ),
            r is Err ==> final(self).projections@ == old(self).projections@,
            r matches Err(e) ==> scan_refusal(projection_pairs(old(self)@.projections), id.0, projection_name(definition), e),
            final(self).roles == old(self).roles,
            final(self).labels == old(self).labels,
            final(self).relation_types == old(self).relation_types,
            final(self).property_keys == old(self).property_keys,
            final(self).indexes == old(self).indexes,
    {
        let mut i: usize = 0;
        while i < self.projections.len()
            invariant
                i <= self.projections@.len(),
                forall|j: int|
                    0 <= j < i ==> projection_name(self.projections@[j].definition)
                        != projection_name(definition) && self.projections@[j].id != id,
            decreases self.projections@.len() - i,
        {
            proof {
                lemma_catalog_view_facts(*self);
                let pairs = projection_pairs(self@.projections);
                assert(pairs[i as int] == (self.projections@[i as int].id.0, projection_name(
                    self.projections@[i as int].definition,
                )));
                assert forall|j: int| 0 <= j < i implies #[trigger] pairs[j].0 != id.0 && pairs[j].1
                    != projection_name(definition) by {
                    assert(pairs[j] == (self.projections@[j].id.0, projection_name(self.projections@[j].definition)));
                }
            }
            if *self.projections[i].definition.name() == *definition.name() {
                let taken = definition.name().clone();
                proof {
                    assert(taken@ == projection_name(definition));
                }
                return Err(DbError::DuplicateCatalogName { name: taken });
            }
            if self.projections[i].id.get() == id.get() {
                return Err(DbError::DuplicateCatalogId);
            }
            i = i + 1;
        }
        self.projections.push(ProjectionEntry { id, definition });
        Ok(())
    }

    /// Returns the projection registered as `id`.
    pub fn projection(&self, id: ProjectionId) -> (e: Option<&ProjectionEntry>)
        ensures
            match e {
                Some(entry) => entry.id == id && exists|i: int|
                    0 <= i < self.projections@.len() && self.projections@[i] == *entry,
                None => forall|i: int|
                    0 <= i < self.projections@.len() ==> self.projections@[i].id != id,
            },
            match e {
                Some(entry) => projection_entry(self.projections@, id) == Some(*entry),
                None => projection_entry(self.projections@, id) is None,
            },
    {
        let mut i: usize = 0;
        while i < self.projections.len()
            invariant
                i <= self.projections@.len(),
                forall|j: int| 0 <= j < i ==> self.projections@[j].id != id,
            decreases self.projections@.len() - i,
        {
            if self.projections[i].id.get() == id.get() {
                proof {
                    let k = choose|k: int|
                        0 <= k < self.projections@.len() && self.projections@[k].id == id && forall|j: int|
                            0 <= j < k ==> self.projections@[j].id != id;
                    if k < i {
                        assert(self.projections@[k].id != id);
                    }
                    if k > i {
                        assert(self.projections@[i as int].id != id);
                    }
                }
                return Some(&self.projections[i]);
            }
            i = i + 1;
        }
        None
    }

    /// Returns the projection id registered under `name`.
    pub fn projection_id(&self, name: &str) -> (id: Option<ProjectionId>)
        ensures
            match id {
                Some(v) => exists|i: int|
                    0 <= i < self.projections@.len() && projection_name(
                        self.projections@[i].definition,
                    ) == name@ && self.projections@[i].id == v,
                None => forall|i: int|
                    0 <= i < self.projections@.len() ==> projection_name(
                        self.projections@[i].definition,
                    ) != name@,
            },
            id == projection_lookup(self.projections@, name@),
    {
        let query = name.to_owned();
        let mut i: usize = 0;
        while i < self.projections.len()
            invariant
                i <= self.projections@.len(),
                query@ == name@,
                forall|j: int|
                    0 <= j < i ==> projection_name(self.projections@[j].definition) != name@,
            decreases self.projections@.len() - i,
        {
            if *self.projections[i].definition.name() == query {
                proof {
                    let k = choose|k: int|
                        0 <= k < self.projections@.len() && projection_name(self.projections@[k].definition) == name@
                            && forall|j: int| 0 <= j < k ==> projection_name(self.projections@[j].definition) != name@;
                    if k < i {
                        assert(projection_name(self.projections@[k].definition) != name@);
                    }
                    if k > i {
                        assert(projection_name(self.projections@[i as int].definition) != name@);
                    }
                }
                return Some(self.projections[i].id);
            }
            i = i + 1;
        }
        None
    }

    /// Registers an index; its name and id must be new.
    pub fn insert_index(&mut self, id: IndexId, name: String, definition: IndexDefinition) -> (r:
        Result<(), DbError>)
        ensures
            r is Ok <==> forall|i: int|
                0 <= i < old(self).indexes@.len() ==> old(self).indexes@[i].name@ != name@
                    && old(self).indexes@[i].id != id,
            r is Ok ==> final(self).indexes@ == old(self).indexes@.push(
                IndexEntry { id, name, definition },
            ),
            r is Err ==> final(self).indexes@ == old(self).indexes@,
            r matches Err(e) ==> scan_refusal(index_pairs(old(self)@.indexes), id.0, name@, e),
            final(self).roles == old(self).roles,
            final(self).labels == old(self).labels,
            final(self).relation_types == old(self).relation_types,
            final(self).property_keys == old(self).property_keys,
            final(self).projections == old(self).projections,
    {
        let mut i: usize = 0;
        while i < self.indexes.len()
            invariant
                i <= self.indexes@.len(),
                forall|j: int|
                    0 <= j < i ==> self.indexes@[j].name@ != name@ && self.indexes@[j].id != id,
            decreases self.indexes@.len() - i,
        {
            proof {
                lemma_catalog_view_facts(*self);
                let pairs = index_pairs(self@.indexes);
                assert(pairs[i as int] == (self.indexes@[i as int].id.0, self.indexes@[i as int].name@));
                assert forall|j: int| 0 <= j < i implies #[trigger] pairs[j].0 != id.0 && pairs[j].1 != name@ by {
                    assert(pairs[j] == (self.indexes@[j].id.0, self.indexes@[j].name@));
                }
            }
            if self.indexes[i].name == name {
                return Err(DbError::DuplicateCatalogName { name });
            }
            if self.indexes[i].id.get() == id.get() {
                return Err(DbError::DuplicateCatalogId);
            }
            i = i + 1;
        }
        self.indexes.push(IndexEntry { id, name, definition });
        Ok(())
    }
}

} // verus!
