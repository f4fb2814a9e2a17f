//! Declarative catalog schema.
//!
//! Declare a store's roles, labels, relation types, typed property keys,
//! equality indexes, and graph projections by name once as a [`Schema`]; the
//! resolved name-to-id handles live in a [`Bound`] bag whose typed getters
//! hand back [`Key<T>`]/[`EqualityIndex<T>`] and plain id newtypes, so a name
//! typo is a typed `UnknownName` error.
use crate::catalog::PropertyFamily;
use crate::error::DbError;
use crate::id::{IndexId, LabelId, ProjectionId, PropertyKeyId, RelationTypeId, RoleId};
use crate::typed::{EqualityIndex, Key, ValueType};
use crate::value::PropertyType;
use vstd::prelude::*;

verus! {

/// The characters of each name in a list.
pub open spec fn name_views(names: Seq<String>) -> Seq<Seq<char>> {
    names.map_values(|s: String| s@)
}

/// A binary graph-projection declaration over a set of relation types.
#[derive(Clone, Debug)]
pub struct GraphProjectionSpec {
    /// Projection name.
    pub name: String,
    /// Relation-type names whose edges the projection traverses.
    pub relation_types: Vec<String>,
    /// Source incidence role name.
    pub source_role: String,
    /// Target incidence role name.
    pub target_role: String,
}

/// The content of a graph-projection declaration.
pub struct GraphProjectionSpecView {
    /// Projection name.
    pub name: Seq<char>,
    /// Relation-type names.
    pub relation_types: Seq<Seq<char>>,
    /// Source role name.
    pub source_role: Seq<char>,
    /// Target role name.
    pub target_role: Seq<char>,
}

impl View for GraphProjectionSpec {
    type V = GraphProjectionSpecView;

    open spec fn view(&self) -> GraphProjectionSpecView {
        GraphProjectionSpecView {
            name: self.name@,
            relation_types: name_views(self.relation_types@),
            source_role: self.source_role@,
            target_role: self.target_role@,
        }
    }
}

/// A declarative catalog schema. Declaration order is preserved.
#[derive(Clone, Debug, Default)]
pub struct Schema {
    /// Declared role names.
    roles: Vec<String>,
    /// Declared label names.
    labels: Vec<String>,
    /// Declared relation-type names.
    relation_types: Vec<String>,
    /// Declared property keys: `(name, family, value type)`.
    keys: Vec<(String, PropertyFamily, PropertyType)>,
    /// Declared equality indexes: `(index name, indexed key name)`.
    equality_indexes: Vec<(String, String)>,
    /// Declared graph projections.
    graph_projections: Vec<GraphProjectionSpec>,
}

/// The content of a schema: every declaration, in order.
pub struct SchemaView {
    /// Role names.
    pub roles: Seq<Seq<char>>,
    /// Label names.
    pub labels: Seq<Seq<char>>,
    /// Relation-type names.
    pub relation_types: Seq<Seq<char>>,
    /// Property keys.
    pub keys: Seq<(Seq<char>, PropertyFamily, PropertyType)>,
    /// Equality indexes as `(index name, key name)`.
    pub equality_indexes: Seq<(Seq<char>, Seq<char>)>,
    /// Graph projections.
    pub graph_projections: Seq<GraphProjectionSpecView>,
}

impl View for Schema {
    type V = SchemaView;

    closed spec fn view(&self) -> SchemaView {
        SchemaView {
            roles: name_views(self.roles@),
            labels: name_views(self.labels@),
            relation_types: name_views(self.relation_types@),
            keys: self.keys@.map_values(
                |k: (String, PropertyFamily, PropertyType)| (k.0@, k.1, k.2),
            ),
            equality_indexes: self.equality_indexes@.map_values(|e: (String, String)| (e.0@, e.1@)),
            graph_projections: self.graph_projections@.map_values(|g: GraphProjectionSpec| g@),
        }
    }
}

impl Schema {
    /// Starts an empty schema.
    pub fn new() -> (s: Self)
        ensures
            s@.roles.len() == 0,
            s@.labels.len() == 0,
            s@.relation_types.len() == 0,
            s@.keys.len() == 0,
            s@.equality_indexes.len() == 0,
            s@.graph_projections.len() == 0,
    {
        Schema {
            roles: Vec::new(),
            labels: Vec::new(),
            relation_types: Vec::new(),
            keys: Vec::new(),
            equality_indexes: Vec::new(),
            graph_projections: Vec::new(),
        }
    }

    /// Declares an incidence role.
    pub fn role(self, name: &str) -> (s: Self)
        ensures
            s@ == (SchemaView { roles: self@.roles.push(name@), ..self@ }),
    {
        let mut next = self;
        let ghost before = next.roles@;
        next.roles.push(name.to_owned());
        proof {
            assert(name_views(next.roles@) =~= name_views(before).push(name@));
        }
        next
    }

    /// Declares an element/relation label.
    pub fn label(self, name: &str) -> (s: Self)
        ensures
            s@ == (SchemaView { labels: self@.labels.push(name@), ..self@ }),
    {
        let mut next = self;
        let ghost before = next.labels@;
        next.labels.push(name.to_owned());
        proof {
            assert(name_views(next.labels@) =~= name_views(before).push(name@));
        }
        next
    }

    /// Declares a relation type.
    pub fn relation_type(self, name: &str) -> (s: Self)
        ensures
            s@ == (SchemaView { relation_types: self@.relation_types.push(name@), ..self@ }),
    {
        let mut next = self;
        let ghost before = next.relation_types@;
        next.relation_types.push(name.to_owned());
        proof {
            assert(name_views(next.relation_types@) =~= name_views(before).push(name@));
        }
        next
    }

    /// Declares a typed property key in `family` whose value type is `T`.
    pub fn key<T: ValueType>(self, name: &str, family: PropertyFamily) -> (s: Self)
        ensures
            s@ == (SchemaView { keys: self@.keys.push((name@, family, T::TYPE)), ..self@ }),
    {
        let mut next = self;
        let ghost before = next.keys@;
        next.keys.push((name.to_owned(), family, T::TYPE));
        proof {
            assert(next.keys@.map_values(
                |k: (String, PropertyFamily, PropertyType)| (k.0@, k.1, k.2),
            ) =~= before.map_values(|k: (String, PropertyFamily, PropertyType)| (k.0@, k.1, k.2)).push(
                (name@, family, T::TYPE),
            ));
        }
        next
    }

    /// Declares an equality index named `name` over the property key `key`.
    pub fn equality_index(self, name: &str, key: &str) -> (s: Self)
        ensures
            s@ == (SchemaView { equality_indexes: self@.equality_indexes.push((name@, key@)), ..self@ }),
    {
        let mut next = self;
        let ghost before = next.equality_indexes@;
        next.equality_indexes.push((name.to_owned(), key.to_owned()));
        proof {
            assert(next.equality_indexes@.map_values(|e: (String, String)| (e.0@, e.1@)) =~= before.map_values(
                |e: (String, String)| (e.0@, e.1@),
            ).push((name@, key@)));
        }
        next
    }

    /// Declares a binary graph projection over `relation_types`, traversing
    /// from `source_role` to `target_role`.
    pub fn graph_projection(self, name: &str, relation_types: &[&str], source_role: &str, target_role: &str) -> (s:
        Self)
        ensures
            s@ == (SchemaView {
                graph_projections: self@.graph_projections.push(
                    GraphProjectionSpecView {
                        name: name@,
                        relation_types: relation_types@.map_values(|t: &str| t@),
                        source_role: source_role@,
                        target_role: target_role@,
                    },
                ),
                ..self@
            }),
    {
        let mut types: Vec<String> = Vec::new();
        let mut i: usize = 0;
        while i < relation_types.len()
            invariant
                i <= relation_types@.len(),
                name_views(types@) =~= relation_types@.take(i as int).map_values(|t: &str| t@),
            decreases relation_types@.len() - i,
        {
            let ghost before = types@;
            types.push(relation_types[i].to_owned());
            proof {
                assert(name_views(types@) =~= name_views(before).push(relation_types@[i as int]@));
                assert(relation_types@.take(i + 1) =~= relation_types@.take(i as int).push(
                    relation_types@[i as int],
                ));
            }
            i = i + 1;
        }
        proof {
            assert(relation_types@.take(i as int) =~= relation_types@);
        }
        let spec = GraphProjectionSpec {
            name: name.to_owned(),
            relation_types: types,
            source_role: source_role.to_owned(),
            target_role: target_role.to_owned(),
        };
        let mut next = self;
        let ghost before = next.graph_projections@;
        next.graph_projections.push(spec);
        proof {
            assert(next.graph_projections@.map_values(|g: GraphProjectionSpec| g@) =~= before.map_values(
                |g: GraphProjectionSpec| g@,
            ).push(spec@));
        }
        next
    }
}

/// The first id bound to `name` in an association list, if any.
pub open spec fn bound_get<T>(entries: Seq<(String, T)>, name: Seq<char>) -> Option<T>
    decreases entries.len(),
{
    if entries.len() == 0 {
        None
    } else if entries[0].0@ == name {
        Some(entries[0].1)
    } else {
        bound_get(entries.drop_first(), name)
    }
}

/// Looks `name` up in an association list.
fn lookup<T: Copy>(entries: &Vec<(String, T)>, name: &str) -> (r: Option<T>)
    ensures
        r == bound_get(entries@, name@),
{
    let query = name.to_owned();
    let mut i: usize = 0;
    proof {
        assert(entries@.skip(0) =~= entries@);
    }
    while i < entries.len()
        invariant
            i <= entries@.len(),
            query@ == name@,
            bound_get(entries@, name@) == bound_get(entries@.skip(i as int), name@),
        decreases entries@.len() - i,
    {
        proof {
            assert(entries@.skip(i as int).drop_first() =~= entries@.skip(i as int + 1));
        }
        if entries[i].0 == query {
            return Some(entries[i].1);
        }
        i = i + 1;
    }
    None
}

/// Binds `name` to `id`: an existing binding for the name is replaced in
/// place, a new one is appended.
fn bind<T: Copy>(entries: &mut Vec<(String, T)>, name: String, id: T)
    ensures
        bound_get(final(entries)@, name@) == Some(id),
        forall|other: Seq<char>| other != name@ ==> #[trigger] bound_get(final(entries)@, other) == bound_get(
            old(entries)@,
            other,
        ),
{
    let ghost start = entries@;
    let mut i: usize = 0;
    while i < entries.len()
        invariant
            entries@ == start,
            start == old(entries)@,
            i <= entries@.len(),
            forall|j: int| 0 <= j < i ==> #[trigger] entries@[j].0@ != name@,
        decreases entries@.len() - i,
    {
        if entries[i].0 == name {
            entries.set(i, (name, id));
            proof {
                lemma_bound_get_set(start, i as int, entries@[i as int]);
                assert(entries@ =~= start.update(i as int, entries@[i as int]));
                assert(entries@[i as int].0@ == name@);
                assert forall|other: Seq<char>| other != name@ implies #[trigger] bound_get(entries@, other)
                    == bound_get(start, other) by {
                    assert(bound_get(start.update(i as int, entries@[i as int]), other) == bound_get(start, other));
                }
            }
            return;
        }
        i = i + 1;
    }
    entries.push((name, id));
    proof {
        lemma_bound_get_push(start, entries@.last());
    }
}

/// Replacing the entry at the first match of its name rebinds just that name.
proof fn lemma_bound_get_set<T>(entries: Seq<(String, T)>, i: int, entry: (String, T))
    requires
        0 <= i < entries.len(),
        entries[i].0@ == entry.0@,
        forall|j: int| 0 <= j < i ==> #[trigger] entries[j].0@ != entry.0@,
    ensures
        bound_get(entries.update(i, entry), entry.0@) == Some(entry.1),
        forall|other: Seq<char>| other != entry.0@ ==> #[trigger] bound_get(entries.update(i, entry), other)
            == bound_get(entries, other),
    decreases i,
{
    if i > 0 {
        lemma_bound_get_set(entries.drop_first(), i - 1, entry);
        assert(entries.update(i, entry).drop_first() =~= entries.drop_first().update(i - 1, entry));
        assert forall|other: Seq<char>| other != entry.0@ implies #[trigger] bound_get(entries.update(i, entry), other)
            == bound_get(entries, other) by {
            assert(bound_get(entries.drop_first().update(i - 1, entry), other) == bound_get(
                entries.drop_first(),
                other,
            ));
        }
    } else {
        assert forall|other: Seq<char>| other != entry.0@ implies #[trigger] bound_get(entries.update(i, entry), other)
            == bound_get(entries, other) by {
            assert(entries.update(i, entry).drop_first() =~= entries.drop_first());
        }
    }
}

/// Appending an entry for a name that no entry carries binds just that name.
proof fn lemma_bound_get_push<T>(entries: Seq<(String, T)>, entry: (String, T))
    requires
        forall|j: int| 0 <= j < entries.len() ==> #[trigger] entries[j].0@ != entry.0@,
    ensures
        bound_get(entries.push(entry), entry.0@) == Some(entry.1),
        forall|other: Seq<char>| other != entry.0@ ==> #[trigger] bound_get(entries.push(entry), other)
            == bound_get(entries, other),
    decreases entries.len(),
{
    if entries.len() > 0 {
        lemma_bound_get_push(entries.drop_first(), entry);
        assert(entries.push(entry).drop_first() =~= entries.drop_first().push(entry));
        assert forall|other: Seq<char>| other != entry.0@ implies #[trigger] bound_get(entries.push(entry), other)
            == bound_get(entries, other) by {
            assert(bound_get(entries.drop_first().push(entry), other) == bound_get(entries.drop_first(), other));
        }
    } else {
        assert forall|other: Seq<char>| other != entry.0@ implies #[trigger] bound_get(entries.push(entry), other)
            == bound_get(entries, other) by {
            assert(entries.push(entry).drop_first() =~= Seq::<(String, T)>::empty());
            assert(entries.push(entry)[0] == entry);
            assert(bound_get(Seq::<(String, T)>::empty(), other) is None);
            assert(entries =~= Seq::<(String, T)>::empty());
        }
    }
}

/// Resolved name-to-id handles for an applied [`Schema`].
///
/// A missing name is an `UnknownName` error; a typed getter whose requested
/// value type differs from the declaration is a `SchemaConflict`.
#[derive(Clone, Debug, Default)]
pub struct Bound {
    /// Role ids by name.
    roles: Vec<(String, RoleId)>,
    /// Label ids by name.
    labels: Vec<(String, LabelId)>,
    /// Relation-type ids by name.
    relation_types: Vec<(String, RelationTypeId)>,
    /// Property key ids (with declared value type) by name.
    keys: Vec<(String, (PropertyKeyId, PropertyType))>,
    /// Equality index ids (with indexed key value type) by name.
    equality_indexes: Vec<(String, (IndexId, PropertyType))>,
    /// Projection ids by name.
    projections: Vec<(String, ProjectionId)>,
}

impl Bound {
    /// The role bound to `name`.
    pub closed spec fn role_of(&self, name: Seq<char>) -> Option<RoleId> {
        bound_get(self.roles@, name)
    }

    /// The label bound to `name`.
    pub closed spec fn label_of(&self, name: Seq<char>) -> Option<LabelId> {
        bound_get(self.labels@, name)
    }

    /// The relation type bound to `name`.
    pub closed spec fn relation_type_of(&self, name: Seq<char>) -> Option<RelationTypeId> {
        bound_get(self.relation_types@, name)
    }

    /// The property key bound to `name`, with its declared value type.
    pub closed spec fn key_of(&self, name: Seq<char>) -> Option<(PropertyKeyId, PropertyType)> {
        bound_get(self.keys@, name)
    }

    /// The equality index bound to `name`, with its key's value type.
    pub closed spec fn equality_index_of(&self, name: Seq<char>) -> Option<(IndexId, PropertyType)> {
        bound_get(self.equality_indexes@, name)
    }

    /// The projection bound to `name`.
    pub closed spec fn projection_of(&self, name: Seq<char>) -> Option<ProjectionId> {
        bound_get(self.projections@, name)
    }

    /// An empty handle bag.
    pub fn new() -> (b: Self)
        ensures
            forall|n: Seq<char>| #[trigger] b.role_of(n) is None,
            forall|n: Seq<char>| #[trigger] b.label_of(n) is None,
            forall|n: Seq<char>| #[trigger] b.relation_type_of(n) is None,
            forall|n: Seq<char>| #[trigger] b.key_of(n) is None,
            forall|n: Seq<char>| #[trigger] b.equality_index_of(n) is None,
            forall|n: Seq<char>| #[trigger] b.projection_of(n) is None,
    {
        Bound {
            roles: Vec::new(),
            labels: Vec::new(),
            relation_types: Vec::new(),
            keys: Vec::new(),
            equality_indexes: Vec::new(),
            projections: Vec::new(),
        }
    }

    /// Binds a role name.
    pub fn bind_role(&mut self, name: String, id: RoleId)
        ensures
            final(self).role_of(name@) == Some(id),
            forall|n: Seq<char>| n != name@ ==> #[trigger] final(self).role_of(n) == old(self).role_of(n),
            forall|n: Seq<char>| #[trigger] final(self).label_of(n) == old(self).label_of(n),
            forall|n: Seq<char>| #[trigger] final(self).relation_type_of(n) == old(self).relation_type_of(n),
            forall|n: Seq<char>| #[trigger] final(self).key_of(n) == old(self).key_of(n),
            forall|n: Seq<char>| #[trigger] final(self).equality_index_of(n) == old(self).equality_index_of(n),
            forall|n: Seq<char>| #[trigger] final(self).projection_of(n) == old(self).projection_of(n),
    {
        bind(&mut self.roles, name, id);
    }

    /// Binds a label name.
    pub fn bind_label(&mut self, name: String, id: LabelId)
        ensures
            final(self).label_of(name@) == Some(id),
            forall|n: Seq<char>| n != name@ ==> #[trigger] final(self).label_of(n) == old(self).label_of(n),
            forall|n: Seq<char>| #[trigger] final(self).role_of(n) == old(self).role_of(n),
            forall|n: Seq<char>| #[trigger] final(self).relation_type_of(n) == old(self).relation_type_of(n),
            forall|n: Seq<char>| #[trigger] final(self).key_of(n) == old(self).key_of(n),
            forall|n: Seq<char>| #[trigger] final(self).equality_index_of(n) == old(self).equality_index_of(n),
            forall|n: Seq<char>| #[trigger] final(self).projection_of(n) == old(self).projection_of(n),
    {
        bind(&mut self.labels, name, id);
    }

    /// Binds a relation-type name.
    pub fn bind_relation_type(&mut self, name: String, id: RelationTypeId)
        ensures
            final(self).relation_type_of(name@) == Some(id),
            forall|n: Seq<char>| n != name@ ==> #[trigger] final(self).relation_type_of(n) == old(
                self,
            ).relation_type_of(n),
            forall|n: Seq<char>| #[trigger] final(self).role_of(n) == old(self).role_of(n),
            forall|n: Seq<char>| #[trigger] final(self).label_of(n) == old(self).label_of(n),
            forall|n: Seq<char>| #[trigger] final(self).key_of(n) == old(self).key_of(n),
            forall|n: Seq<char>| #[trigger] final(self).equality_index_of(n) == old(self).equality_index_of(n),
            forall|n: Seq<char>| #[trigger] final(self).projection_of(n) == old(self).projection_of(n),
    {
        bind(&mut self.relation_types, name, id);
    }

    /// Binds a property-key name with its declared value type.
    pub fn bind_key(&mut self, name: String, id: PropertyKeyId, value_type: PropertyType)
        ensures
            final(self).key_of(name@) == Some((id, value_type)),
            forall|n: Seq<char>| n != name@ ==> #[trigger] final(self).key_of(n) == old(self).key_of(n),
            forall|n: Seq<char>| #[trigger] final(self).role_of(n) == old(self).role_of(n),
            forall|n: Seq<char>| #[trigger] final(self).label_of(n) == old(self).label_of(n),
            forall|n: Seq<char>| #[trigger] final(self).relation_type_of(n) == old(self).relation_type_of(n),
            forall|n: Seq<char>| #[trigger] final(self).equality_index_of(n) == old(self).equality_index_of(n),
            forall|n: Seq<char>| #[trigger] final(self).projection_of(n) == old(self).projection_of(n),
    {
        bind(&mut self.keys, name, (id, value_type));
    }

    /// Binds an equality-index name with its indexed key's value type.
    pub fn bind_equality_index(&mut self, name: String, id: IndexId, value_type: PropertyType)
        ensures
            final(self).equality_index_of(name@) == Some((id, value_type)),
            forall|n: Seq<char>| n != name@ ==> #[trigger] final(self).equality_index_of(n) == old(
                self,
            ).equality_index_of(n),
            forall|n: Seq<char>| #[trigger] final(self).role_of(n) == old(self).role_of(n),
            forall|n: Seq<char>| #[trigger] final(self).label_of(n) == old(self).label_of(n),
            forall|n: Seq<char>| #[trigger] final(self).relation_type_of(n) == old(self).relation_type_of(n),
            forall|n: Seq<char>| #[trigger] final(self).key_of(n) == old(self).key_of(n),
            forall|n: Seq<char>| #[trigger] final(self).projection_of(n) == old(self).projection_of(n),
    {
        bind(&mut self.equality_indexes, name, (id, value_type));
    }

    /// Binds a projection name.
    pub fn bind_projection(&mut self, name: String, id: ProjectionId)
        ensures
            final(self).projection_of(name@) == Some(id),
            forall|n: Seq<char>| n != name@ ==> #[trigger] final(self).projection_of(n) == old(self).projection_of(
                n,
            ),
            forall|n: Seq<char>| #[trigger] final(self).role_of(n) == old(self).role_of(n),
            forall|n: Seq<char>| #[trigger] final(self).label_of(n) == old(self).label_of(n),
            forall|n: Seq<char>| #[trigger] final(self).relation_type_of(n) == old(self).relation_type_of(n),
            forall|n: Seq<char>| #[trigger] final(self).key_of(n) == old(self).key_of(n),
            forall|n: Seq<char>| #[trigger] final(self).equality_index_of(n) == old(self).equality_index_of(n),
    {
        bind(&mut self.projections, name, id);
    }

    /// Resolves a role handle; an unbound name is `UnknownName`.
    pub fn role(&self, name: &str) -> (r: Result<RoleId, DbError>)
        ensures
            match self.role_of(name@) {
                Some(id) => r == Ok::<RoleId, DbError>(id),
                None => r matches Err(DbError::UnknownName { kind, name: n }) && kind == "role" && n@ == name@,
            },
    {
        match lookup(&self.roles, name) {
            Some(id) => Ok(id),
            None => Err(DbError::UnknownName { kind: "role", name: name.to_owned() }),
        }
    }

    /// Resolves a label handle; an unbound name is `UnknownName`.
    pub fn label(&self, name: &str) -> (r: Result<LabelId, DbError>)
        ensures
            match self.label_of(name@) {
                Some(id) => r == Ok::<LabelId, DbError>(id),
                None => r matches Err(DbError::UnknownName { kind, name: n }) && kind == "label" && n@ == name@,
            },
    {
        match lookup(&self.labels, name) {
            Some(id) => Ok(id),
            None => Err(DbError::UnknownName { kind: "label", name: name.to_owned() }),
        }
    }

    /// Resolves a relation-type handle; an unbound name is `UnknownName`.
    pub fn relation_type(&self, name: &str) -> (r: Result<RelationTypeId, DbError>)
        ensures
            match self.relation_type_of(name@) {
                Some(id) => r == Ok::<RelationTypeId, DbError>(id),
                None => r matches Err(DbError::UnknownName { kind, name: n }) && kind == "relation type"
                    && n@ == name@,
            },
    {
        match lookup(&self.relation_types, name) {
            Some(id) => Ok(id),
            None => Err(DbError::UnknownName { kind: "relation type", name: name.to_owned() }),
        }
    }

    /// Resolves a typed property-key handle, checking the declared value type
    /// matches `T`.
    pub fn key<T: ValueType>(&self, name: &str) -> (r: Result<Key<T>, DbError>)
        ensures
            match self.key_of(name@) {
                Some((id, value_type)) => if value_type == T::TYPE {
                    r matches Ok(k) && k.spec_id() == id
                } else {
                    r matches Err(DbError::SchemaConflict { name: n, reason }) && n@ == name@ && reason
                        == "property key value type differs from the requested typed handle"
                },
                None => r matches Err(DbError::UnknownName { kind, name: n }) && kind == "property key"
                    && n@ == name@,
            },
    {
        match lookup(&self.keys, name) {
            Some((id, value_type)) => {
                if value_type == T::TYPE {
                    Ok(Key::from_id(id))
                } else {
                    Err(
                        DbError::SchemaConflict {
                            name: name.to_owned(),
                            reason: "property key value type differs from the requested typed handle",
                        },
                    )
                }
            },
            None => Err(DbError::UnknownName { kind: "property key", name: name.to_owned() }),
        }
    }

    /// Resolves a typed equality-index handle, checking the indexed key's
    /// value type matches `T`.
    pub fn equality_index<T: ValueType>(&self, name: &str) -> (r: Result<EqualityIndex<T>, DbError>)
        ensures
            match self.equality_index_of(name@) {
                Some((id, value_type)) => if value_type == T::TYPE {
                    r matches Ok(k) && k.spec_id() == id
                } else {
                    r matches Err(DbError::SchemaConflict { name: n, reason }) && n@ == name@ && reason
                        == "equality index value type differs from the requested typed handle"
                },
                None => r matches Err(DbError::UnknownName { kind, name: n }) && kind == "index" && n@ == name@,
            },
    {
        match lookup(&self.equality_indexes, name) {
            Some((id, value_type)) => {
                if value_type == T::TYPE {
                    Ok(EqualityIndex::from_id(id))
                } else {
                    Err(
                        DbError::SchemaConflict {
                            name: name.to_owned(),
                            reason: "equality index value type differs from the requested typed handle",
                        },
                    )
                }
            },
            None => Err(DbError::UnknownName { kind: "index", name: name.to_owned() }),
        }
    }

    /// Resolves a projection handle; an unbound name is `UnknownName`.
    pub fn projection(&self, name: &str) -> (r: Result<ProjectionId, DbError>)
        ensures
            match self.projection_of(name@) {
                Some(id) => r == Ok::<ProjectionId, DbError>(id),
                None => r matches Err(DbError::UnknownName { kind, name: n }) && kind == "projection"
                    && n@ == name@,
            },
    {
        match lookup(&self.projections, name) {
            Some(id) => Ok(id),
            None => Err(DbError::UnknownName { kind: "projection", name: name.to_owned() }),
        }
    }
}

} // verus!
