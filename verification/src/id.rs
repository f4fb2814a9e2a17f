//! Canonical id newtypes.
//!
//! Every canonical id is a `u64` allocated from `1` upward by a monotonic
//! allocator; `0` never names a live record, so the wire format can use it as
//! an absence sentinel.
use vstd::prelude::*;

verus! {

/// Stable element identifier.
#[derive(Clone, Copy, Debug, PartialEq, Eq, Structural, Hash, PartialOrd, Ord)]
pub struct ElementId(pub u64);

impl ElementId {
    /// Wraps a raw element id.
    pub fn new(value: u64) -> (id: Self)
        ensures
            id.0 == value,
    {
        ElementId(value)
    }

    /// Returns the raw element id.
    pub fn get(self) -> (value: u64)
        ensures
            value == self.0,
    {
        self.0
    }

    /// Returns the next id after this one, or `None` when the id space is
    /// exhausted.
    pub fn checked_next(self) -> (next: Option<Self>)
        ensures
            match next {
                Some(n) => self.0 < u64::MAX && n.0 == self.0 + 1,
                None => self.0 == u64::MAX,
            },
    {
        if self.0 < u64::MAX {
            Some(ElementId(self.0 + 1))
        } else {
            None
        }
    }
}

/// Stable relation identifier.
#[derive(Clone, Copy, Debug, PartialEq, Eq, Structural, Hash, PartialOrd, Ord)]
pub struct RelationId(pub u64);

impl RelationId {
    /// Wraps a raw relation id.
    pub fn new(value: u64) -> (id: Self)
        ensures
            id.0 == value,
    {
        RelationId(value)
    }

    /// Returns the raw relation id.
    pub fn get(self) -> (value: u64)
        ensures
            value == self.0,
    {
        self.0
    }

    /// Returns the next id after this one, or `None` when the id space is
    /// exhausted.
    pub fn checked_next(self) -> (next: Option<Self>)
        ensures
            match next {
                Some(n) => self.0 < u64::MAX && n.0 == self.0 + 1,
                None => self.0 == u64::MAX,
            },
    {
        if self.0 < u64::MAX {
            Some(RelationId(self.0 + 1))
        } else {
            None
        }
    }
}

/// Stable incidence identifier.
#[derive(Clone, Copy, Debug, PartialEq, Eq, Structural, Hash, PartialOrd, Ord)]
pub struct IncidenceId(pub u64);

impl IncidenceId {
    /// Wraps a raw incidence id.
    pub fn new(value: u64) -> (id: Self)
        ensures
            id.0 == value,
    {
        IncidenceId(value)
    }

    /// Returns the raw incidence id.
    pub fn get(self) -> (value: u64)
        ensures
            value == self.0,
    {
        self.0
    }

    /// Returns the next id after this one, or `None` when the id space is
    /// exhausted.
    pub fn checked_next(self) -> (next: Option<Self>)
        ensures
            match next {
                Some(n) => self.0 < u64::MAX && n.0 == self.0 + 1,
                None => self.0 == u64::MAX,
            },
    {
        if self.0 < u64::MAX {
            Some(IncidenceId(self.0 + 1))
        } else {
            None
        }
    }
}

/// Stable role identifier.
#[derive(Clone, Copy, Debug, PartialEq, Eq, Structural, Hash, PartialOrd, Ord)]
pub struct RoleId(pub u64);

impl RoleId {
    /// Wraps a raw role id.
    pub fn new(value: u64) -> (id: Self)
        ensures
            id.0 == value,
    {
        RoleId(value)
    }

    /// Returns the raw role id.
    pub fn get(self) -> (value: u64)
        ensures
            value == self.0,
    {
        self.0
    }

    /// Returns the next id after this one, or `None` when the id space is
    /// exhausted.
    pub fn checked_next(self) -> (next: Option<Self>)
        ensures
            match next {
                Some(n) => self.0 < u64::MAX && n.0 == self.0 + 1,
                None => self.0 == u64::MAX,
            },
    {
        if self.0 < u64::MAX {
            Some(RoleId(self.0 + 1))
        } else {
            None
        }
    }
}

/// Stable label identifier.
#[derive(Clone, Copy, Debug, PartialEq, Eq, Structural, Hash, PartialOrd, Ord)]
pub struct LabelId(pub u64);

impl LabelId {
    /// Wraps a raw label id.
    pub fn new(value: u64) -> (id: Self)
        ensures
            id.0 == value,
    {
        LabelId(value)
    }

    /// Returns the raw label id.
    pub fn get(self) -> (value: u64)
        ensures
            value == self.0,
    {
        self.0
    }

    /// Returns the next id after this one, or `None` when the id space is
    /// exhausted.
    pub fn checked_next(self) -> (next: Option<Self>)
        ensures
            match next {
                Some(n) => self.0 < u64::MAX && n.0 == self.0 + 1,
                None => self.0 == u64::MAX,
            },
    {
        if self.0 < u64::MAX {
            Some(LabelId(self.0 + 1))
        } else {
            None
        }
    }
}

/// Stable relation type identifier.
#[derive(Clone, Copy, Debug, PartialEq, Eq, Structural, Hash, PartialOrd, Ord)]
pub struct RelationTypeId(pub u64);

impl RelationTypeId {
    /// Wraps a raw relation type id.
    pub fn new(value: u64) -> (id: Self)
        ensures
            id.0 == value,
    {
        RelationTypeId(value)
    }

    /// Returns the raw relation type id.
    pub fn get(self) -> (value: u64)
        ensures
            value == self.0,
    {
        self.0
    }

    /// Returns the next id after this one, or `None` when the id space is
    /// exhausted.
    pub fn checked_next(self) -> (next: Option<Self>)
        ensures
            match next {
                Some(n) => self.0 < u64::MAX && n.0 == self.0 + 1,
                None => self.0 == u64::MAX,
            },
    {
        if self.0 < u64::MAX {
            Some(RelationTypeId(self.0 + 1))
        } else {
            None
        }
    }
}

/// Stable property key identifier.
#[derive(Clone, Copy, Debug, PartialEq, Eq, Structural, Hash, PartialOrd, Ord)]
pub struct PropertyKeyId(pub u64);

impl PropertyKeyId {
    /// Wraps a raw property key id.
    pub fn new(value: u64) -> (id: Self)
        ensures
            id.0 == value,
    {
        PropertyKeyId(value)
    }

    /// Returns the raw property key id.
    pub fn get(self) -> (value: u64)
        ensures
            value == self.0,
    {
        self.0
    }

    /// Returns the next id after this one, or `None` when the id space is
    /// exhausted.
    pub fn checked_next(self) -> (next: Option<Self>)
        ensures
            match next {
                Some(n) => self.0 < u64::MAX && n.0 == self.0 + 1,
                None => self.0 == u64::MAX,
            },
    {
        if self.0 < u64::MAX {
            Some(PropertyKeyId(self.0 + 1))
        } else {
            None
        }
    }
}

/// Stable projection identifier.
#[derive(Clone, Copy, Debug, PartialEq, Eq, Structural, Hash, PartialOrd, Ord)]
pub struct ProjectionId(pub u64);

impl ProjectionId {
    /// Wraps a raw projection id.
    pub fn new(value: u64) -> (id: Self)
        ensures
            id.0 == value,
    {
        ProjectionId(value)
    }

    /// Returns the raw projection id.
    pub fn get(self) -> (value: u64)
        ensures
            value == self.0,
    {
        self.0
    }

    /// Returns the next id after this one, or `None` when the id space is
    /// exhausted.
    pub fn checked_next(self) -> (next: Option<Self>)
        ensures
            match next {
                Some(n) => self.0 < u64::MAX && n.0 == self.0 + 1,
                None => self.0 == u64::MAX,
            },
    {
        if self.0 < u64::MAX {
            Some(ProjectionId(self.0 + 1))
        } else {
            None
        }
    }
}

/// Stable index identifier.
#[derive(Clone, Copy, Debug, PartialEq, Eq, Structural, Hash, PartialOrd, Ord)]
pub struct IndexId(pub u64);

impl IndexId {
    /// Wraps a raw index id.
    pub fn new(value: u64) -> (id: Self)
        ensures
            id.0 == value,
    {
        IndexId(value)
    }

    /// Returns the raw index id.
    pub fn get(self) -> (value: u64)
        ensures
            value == self.0,
    {
        self.0
    }

    /// Returns the next id after this one, or `None` when the id space is
    /// exhausted.
    pub fn checked_next(self) -> (next: Option<Self>)
        ensures
            match next {
                Some(n) => self.0 < u64::MAX && n.0 == self.0 + 1,
                None => self.0 == u64::MAX,
            },
    {
        if self.0 < u64::MAX {
            Some(IndexId(self.0 + 1))
        } else {
            None
        }
    }
}

} // verus!
