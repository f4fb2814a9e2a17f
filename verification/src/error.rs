//! Error vocabulary shared by the database layers.
use crate::catalog::PropertyFamily;
use crate::id::{
    ElementId, IncidenceId, IndexId, LabelId, ProjectionId, PropertyKeyId, RelationId,
    RelationTypeId, RoleId,
};
use crate::value::PropertyType;
use vstd::prelude::*;

verus! {

/// Query-surface errors.
#[derive(Clone, Debug, PartialEq, Eq)]
pub enum QueryError {
    /// A narrowing conversion fell outside the target range.
    ValueOutOfRange,
    /// A required property is absent.
    MissingProperty {
        /// The absent key.
        key: PropertyKeyId,
    },
}

/// Storage and durability errors.
#[derive(Clone, Debug, PartialEq, Eq)]
pub enum StorageError {
    /// The store file is absent.
    NotFound,
    /// The store bytes are malformed or unsupported.
    InvalidStore {
        /// Static description of the malformation.
        reason: &'static str,
    },
    /// A delta-log record is corrupt and is not a torn tail.
    LogCorrupt {
        /// LSN claimed by the corrupt record.
        lsn: u64,
        /// Static description of the corruption.
        reason: &'static str,
    },
    /// A delta-log record belongs to another base generation.
    BaseGenerationMismatch {
        /// Generation the replay expected.
        expected: u64,
        /// Generation the record carried.
        found: u64,
    },
}

impl StorageError {
    /// Builds an invalid-store error.
    pub fn invalid_store(reason: &'static str) -> (e: Self)
        ensures
            e == (StorageError::InvalidStore { reason }),
    {
        StorageError::InvalidStore { reason }
    }
}

/// Database errors.
#[derive(Clone, Debug, PartialEq, Eq)]
pub enum DbError {
    /// An id allocator is exhausted.
    IdOverflow,
    /// A freshly allocated id was already present.
    DuplicateId,
    /// A catalog name is already registered in its namespace.
    DuplicateCatalogName {
        /// The duplicated name.
        name: String,
    },
    /// A catalog id is already registered in its namespace.
    DuplicateCatalogId,
    /// Unknown element.
    UnknownElement {
        /// The missing id.
        id: ElementId,
    },
    /// Unknown relation.
    UnknownRelation {
        /// The missing id.
        id: RelationId,
    },
    /// Unknown incidence.
    UnknownIncidence {
        /// The missing id.
        id: IncidenceId,
    },
    /// Unknown role.
    UnknownRole {
        /// The missing id.
        id: RoleId,
    },
    /// Unknown label.
    UnknownLabel {
        /// The missing id.
        id: LabelId,
    },
    /// Unknown relation type.
    UnknownRelationType {
        /// The missing id.
        id: RelationTypeId,
    },
    /// Unknown property key.
    UnknownPropertyKey {
        /// The missing id.
        id: PropertyKeyId,
    },
    /// Unknown projection.
    UnknownProjection {
        /// The missing id.
        id: ProjectionId,
    },
    /// Unknown index.
    UnknownIndex {
        /// The missing id.
        id: IndexId,
    },
    /// A property key was used on a subject of another family.
    WrongPropertyFamily {
        /// Family the key was declared for.
        expected: PropertyFamily,
        /// Family of the subject or lookup.
        actual: PropertyFamily,
    },
    /// A property value has another type than its key declares.
    PropertyTypeMismatch {
        /// Declared value type.
        expected: PropertyType,
        /// Supplied value type.
        actual: PropertyType,
    },
    /// An empty query string.
    EmptyQuery,
    /// A query or operation outside the supported profile.
    Unsupported {
        /// Description of what is unsupported.
        reason: String,
    },
    /// A name that no catalog entry carries.
    UnknownName {
        /// Namespace of the name.
        kind: &'static str,
        /// The unresolved name.
        name: String,
    },
    /// A schema declaration conflicts with the catalog.
    SchemaConflict {
        /// The conflicting name.
        name: String,
        /// Static description.
        reason: &'static str,
    },
    /// A projection cannot be materialized.
    InvalidProjection {
        /// Static description.
        reason: &'static str,
    },
    /// A bounded traversal failed.
    Traversal {
        /// Static description.
        reason: &'static str,
    },
    /// A replayed delta-log op is malformed.
    LogCorrupt {
        /// LSN of the frame carrying the op.
        lsn: u64,
        /// Static description.
        reason: &'static str,
    },
    /// Query-surface error.
    Query(QueryError),
    /// Storage error.
    Storage(StorageError),
}

impl DbError {
    /// Builds an unsupported-operation error.
    pub fn unsupported(reason: &str) -> (e: Self)
        ensures
            e matches DbError::Unsupported { reason: r } && r@ == reason@,
    {
        DbError::Unsupported { reason: reason.to_owned() }
    }

    /// Builds an invalid-projection error.
    pub fn invalid_projection(reason: &'static str) -> (e: Self)
        ensures
            e == (DbError::InvalidProjection { reason }),
    {
        DbError::InvalidProjection { reason }
    }

    /// Builds a traversal error.
    pub fn traversal(reason: &'static str) -> (e: Self)
        ensures
            e == (DbError::Traversal { reason }),
    {
        DbError::Traversal { reason }
    }
}

} // verus!
