//! On-disk wire vocabulary: tags, fixed record layouts, and op kinds.
//!
//! Every fixed-width record is little-endian. The layouts below are the byte
//! contract the delta-log and superblock codecs in [`crate::wal`] follow.
use crate::catalog::PropertyFamily;
use crate::id::{ElementId, IncidenceId, RelationId, RelationTypeId};
use crate::state::PropertySubject;
use crate::value::PropertyType;
use vstd::prelude::*;

pub mod base;
pub mod defs;

verus! {

/// Format version of the store payload as a whole.
pub const OXGDB_FORMAT_VERSION: u32 = 1;

/// Sentinel standing in for "no relation type"; canonical ids start at `1`.
pub const RELATION_TYPE_NONE: u64 = 0;

/// Magic word stamped on every delta-log record header.
pub const OXGLOGR: u32 = 0x4F58_4C47;

/// Eight-byte superblock magic, `b"OXGSUPER"`.
pub const SUPERBLOCK_MAGIC: [u8; 8] = [0x4F, 0x58, 0x47, 0x53, 0x55, 0x50, 0x45, 0x52];

/// Byte length of a delta-log record header: three `u64` words (base
/// generation, lsn, txn id) then four `u32` words (magic, len, op count, crc).
pub const LOG_RECORD_HEADER_LEN: usize = 40;

/// Number of `u64` payload words in a mutation op.
pub const MUTATION_OP_PAYLOAD_WORDS: usize = 9;

/// Byte length of one mutation op: `u32` kind, `u32` flags, nine `u64` words.
pub const MUTATION_OP_LEN: usize = 80;

/// Byte length of a superblock record.
pub const SUPERBLOCK_LEN: usize = 64;

/// Byte length of the superblock prefix its checksum covers (everything before
/// the checksum field; the trailing pad word is excluded too).
pub const SUPERBLOCK_CRC_PREFIX_LEN: usize = 56;

/// Byte length of the base content-integrity trailer.
pub const BASE_TRAILER_LEN: usize = 8;

/// Superblock / manifest record: the store's single linearization point. It
/// names the base generation, the last checkpoint LSN folded into that base,
/// and the delta-log byte offset where post-checkpoint records begin.
#[derive(Clone, Copy, Debug, PartialEq, Eq)]
pub struct SuperblockRecord {
    /// Format magic; must equal [`SUPERBLOCK_MAGIC`] to open.
    pub magic: [u8; 8],
    /// Base generation named by this superblock.
    pub base_generation: u64,
    /// Last checkpoint LSN folded into the named base.
    pub checkpoint_lsn: u64,
    /// Byte offset in the delta-log where post-checkpoint records begin.
    pub log_byte_offset: u64,
    /// Checkpoint-time commit sequence snapshot.
    pub commit_seq: u64,
    /// Checkpoint-time writer transaction id snapshot.
    pub transaction_id: u64,
    /// Format version; must equal [`OXGDB_FORMAT_VERSION`] to open.
    pub format_version: u32,
    /// Reserved flag bits; must be zero.
    pub flags: u32,
    /// CRC-32C over the 56 preceding bytes of the record.
    pub crc32c: u32,
    /// Trailing pad word; must be zero.
    pub pad: u32,
}

/// One fixed-size mutation, discriminated by `op_kind`.
#[derive(Clone, Copy, Debug, PartialEq, Eq)]
pub struct MutationOp {
    /// Op discriminant; one of the `OP_*` constants.
    pub op_kind: u32,
    /// Packed secondary tags; zero when unused.
    pub flags: u32,
    /// Fixed id/offset payload words interpreted per `op_kind`.
    pub payload: [u64; 9],
}

/// Creates one element; `payload[0]` is the allocated element id.
pub const OP_CREATE_ELEMENT: u32 = 1;
/// Tombstones one element; `payload[0]` is the element id.
pub const OP_TOMBSTONE_ELEMENT: u32 = 2;
/// Creates one relation; `payload[0]` is the allocated relation id.
pub const OP_CREATE_RELATION: u32 = 3;
/// Tombstones one relation; `payload[0]` is the relation id.
pub const OP_TOMBSTONE_RELATION: u32 = 4;
/// Creates one incidence; payload `(incidence, relation, element, role)`.
pub const OP_CREATE_INCIDENCE: u32 = 5;
/// Tombstones one incidence; `payload[0]` is the incidence id.
pub const OP_TOMBSTONE_INCIDENCE: u32 = 6;
/// Sets a relation's type; payload `(relation, relation_type)`.
pub const OP_SET_RELATION_TYPE: u32 = 7;
/// Adds a label to an element; payload `(element, label)`.
pub const OP_ADD_ELEMENT_LABEL: u32 = 8;
/// Adds a label to a relation; payload `(relation, label)`.
pub const OP_ADD_RELATION_LABEL: u32 = 9;
/// Sets a typed property; payload `(subject_id, key, scalar, text_off, text_len)`.
pub const OP_SET_PROPERTY: u32 = 10;
/// Removes a property; payload `(subject_id, key)`.
pub const OP_REMOVE_PROPERTY: u32 = 11;
/// Registers a catalog role; payload `(id, name_off, name_len)`.
pub const OP_CATALOG_REGISTER_ROLE: u32 = 12;
/// Registers a catalog label; payload `(id, name_off, name_len)`.
pub const OP_CATALOG_REGISTER_LABEL: u32 = 13;
/// Registers a catalog relation type; payload `(id, name_off, name_len)`.
pub const OP_CATALOG_REGISTER_RELATION_TYPE: u32 = 14;
/// Registers a catalog property key; payload `(id, name_off, name_len)`.
pub const OP_CATALOG_REGISTER_PROPERTY_KEY: u32 = 15;
/// Registers a catalog projection; payload `(id, name_off, name_len, def_off, def_len)`.
pub const OP_CATALOG_REGISTER_PROJECTION: u32 = 16;
/// Registers a catalog index; payload `(id, name_off, name_len, def_off, def_len)`.
pub const OP_CATALOG_REGISTER_INDEX: u32 = 17;
/// Carries the nine-value next-id watermark.
pub const OP_NEXT_ID_WATERMARK: u32 = 18;
/// Reserved catalog-drop op kind; never emitted.
pub const OP_CATALOG_DROP: u32 = 19;
/// Reserved catalog-rename op kind; never emitted.
pub const OP_CATALOG_RENAME: u32 = 20;

/// Encodes an optional relation type, using the sentinel for absence.
pub fn encode_relation_type(value: Option<RelationTypeId>) -> (raw: u64)
    ensures
        raw == match value {
            None => RELATION_TYPE_NONE,
            Some(id) => id.0,
        },
{
    match value {
        None => RELATION_TYPE_NONE,
        Some(id) => id.get(),
    }
}

/// Decodes a relation-type word, treating the sentinel as absence.
pub fn decode_relation_type(raw: u64) -> (value: Option<RelationTypeId>)
    ensures
        value == if raw == RELATION_TYPE_NONE {
            None
        } else {
            Some(RelationTypeId(raw))
        },
{
    if raw == RELATION_TYPE_NONE {
        None
    } else {
        Some(RelationTypeId::new(raw))
    }
}

/// The stored tag of a property family.
pub open spec fn spec_family_tag(family: PropertyFamily) -> u32 {
    match family {
        PropertyFamily::Element => 0,
        PropertyFamily::Relation => 1,
        PropertyFamily::Incidence => 2,
    }
}

/// Maps a property family to its stored tag.
pub fn property_family_tag(family: PropertyFamily) -> (tag: u32)
    ensures
        tag == spec_family_tag(family),
{
    match family {
        PropertyFamily::Element => 0,
        PropertyFamily::Relation => 1,
        PropertyFamily::Incidence => 2,
    }
}

/// Maps a stored tag back to a property family; `None` for an unknown tag.
pub fn property_family_from_tag(tag: u32) -> (family: Option<PropertyFamily>)
    ensures
        match family {
            Some(f) => spec_family_tag(f) == tag,
            None => tag > 2,
        },
{
    match tag {
        0 => Some(PropertyFamily::Element),
        1 => Some(PropertyFamily::Relation),
        2 => Some(PropertyFamily::Incidence),
        _ => None,
    }
}

/// The stored tag of a property value type.
pub open spec fn spec_type_tag(value_type: PropertyType) -> u32 {
    match value_type {
        PropertyType::Boolean => 0,
        PropertyType::Integer => 1,
        PropertyType::Text => 2,
    }
}

/// Maps a property value type to its stored tag.
pub fn property_type_tag(value_type: PropertyType) -> (tag: u32)
    ensures
        tag == spec_type_tag(value_type),
{
    match value_type {
        PropertyType::Boolean => 0,
        PropertyType::Integer => 1,
        PropertyType::Text => 2,
    }
}

/// Maps a stored tag back to a property value type; `None` for an unknown tag.
pub fn property_type_from_tag(tag: u32) -> (value_type: Option<PropertyType>)
    ensures
        match value_type {
            Some(t) => spec_type_tag(t) == tag,
            None => tag > 2,
        },
{
    match tag {
        0 => Some(PropertyType::Boolean),
        1 => Some(PropertyType::Integer),
        2 => Some(PropertyType::Text),
        _ => None,
    }
}

/// The `(kind, id)` wire pair of a property subject; kinds follow the
/// variant order `Element < Relation < Incidence`.
pub open spec fn spec_encode_subject(subject: PropertySubject) -> (u32, u64) {
    match subject {
        PropertySubject::Element(id) => (0, id.0),
        PropertySubject::Relation(id) => (1, id.0),
        PropertySubject::Incidence(id) => (2, id.0),
    }
}

/// The subject named by a `(kind, id)` wire pair, if the kind is known.
pub open spec fn spec_decode_subject(kind: u32, id: u64) -> Option<PropertySubject> {
    if kind == 0 {
        Some(PropertySubject::Element(ElementId(id)))
    } else if kind == 1 {
        Some(PropertySubject::Relation(RelationId(id)))
    } else if kind == 2 {
        Some(PropertySubject::Incidence(IncidenceId(id)))
    } else {
        None
    }
}

/// Encodes a property subject into its `(kind, id)` wire pair.
pub fn encode_subject(subject: PropertySubject) -> (pair: (u32, u64))
    ensures
        pair == spec_encode_subject(subject),
{
    match subject {
        PropertySubject::Element(id) => (0, id.get()),
        PropertySubject::Relation(id) => (1, id.get()),
        PropertySubject::Incidence(id) => (2, id.get()),
    }
}

/// Decodes a `(kind, id)` wire pair; `None` for an unknown kind.
pub fn decode_subject(kind: u32, id: u64) -> (subject: Option<PropertySubject>)
    ensures
        subject == spec_decode_subject(kind, id),
{
    match kind {
        0 => Some(PropertySubject::Element(ElementId::new(id))),
        1 => Some(PropertySubject::Relation(RelationId::new(id))),
        2 => Some(PropertySubject::Incidence(IncidenceId::new(id))),
        _ => None,
    }
}

/// Packs two 16-bit tags into one flags word.
pub open spec fn spec_pack_flags(low: u32, high: u32) -> u32 {
    (low & 0xFFFF) | ((high & 0xFFFF) << 16)
}

/// Packs the low 16 bits of `low` and of `high` into one flags word.
pub fn pack_flags(low: u32, high: u32) -> (flags: u32)
    ensures
        flags == spec_pack_flags(low, high),
{
    (low & 0xFFFF) | ((high & 0xFFFF) << 16)
}

/// Unpacks a flags word into its `(low, high)` 16-bit halves.
pub fn unpack_flags(flags: u32) -> (tags: (u32, u32))
    ensures
        tags == ((flags & 0xFFFF) as u32, (flags >> 16) as u32),
{
    (flags & 0xFFFF, flags >> 16)
}

/// An absent relation type and every allocated relation type survive the
/// sentinel encoding: decoding the encoding gives the value back whenever the
/// id is not the sentinel `0`.
pub proof fn lemma_relation_type_roundtrip(value: Option<RelationTypeId>)
    requires
        value matches Some(id) ==> id.0 != RELATION_TYPE_NONE,
    ensures
        (if match value {
            None => RELATION_TYPE_NONE,
            Some(id) => id.0,
        } == RELATION_TYPE_NONE {
            None
        } else {
            Some(RelationTypeId(match value {
                None => RELATION_TYPE_NONE,
                Some(id) => id.0,
            }))
        }) == value,
{
}

/// Property-family tags are injective and land in `0..=2`.
pub proof fn lemma_family_tag_roundtrip(a: PropertyFamily, b: PropertyFamily)
    ensures
        spec_family_tag(a) <= 2,
        spec_family_tag(a) == spec_family_tag(b) ==> a == b,
{
}

/// Property-type tags are injective and land in `0..=2`.
pub proof fn lemma_type_tag_roundtrip(a: PropertyType, b: PropertyType)
    ensures
        spec_type_tag(a) <= 2,
        spec_type_tag(a) == spec_type_tag(b) ==> a == b,
{
}

/// Decoding a subject's wire pair gives the subject back.
pub proof fn lemma_subject_roundtrip(subject: PropertySubject)
    ensures
        spec_decode_subject(spec_encode_subject(subject).0, spec_encode_subject(subject).1)
            == Some(subject),
{
}

/// Two 16-bit tags survive packing into one flags word.
pub proof fn lemma_flags_roundtrip(low: u32, high: u32)
    requires
        low <= 0xFFFF,
        high <= 0xFFFF,
    ensures
        (spec_pack_flags(low, high) & 0xFFFF) == low,
        (spec_pack_flags(low, high) >> 16) == high,
{
    assert(((low & 0xFFFF) | ((high & 0xFFFF) << 16)) & 0xFFFF == low) by (bit_vector)
        requires
            low <= 0xFFFF,
            high <= 0xFFFF,
    ;
    assert(((low & 0xFFFF) | ((high & 0xFFFF) << 16)) >> 16 == high) by (bit_vector)
        requires
            low <= 0xFFFF,
            high <= 0xFFFF,
    ;
}

} // verus!
