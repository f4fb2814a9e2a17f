use oxgraph_db::catalog::PropertyFamily;
use oxgraph_db::id::RelationTypeId;
use oxgraph_db::value::PropertyType;
use oxgraph_db::wire::{
    decode_relation_type, encode_relation_type, pack_flags, property_family_from_tag,
    property_family_tag, property_type_from_tag, property_type_tag, unpack_flags,
    BASE_TRAILER_LEN, LOG_RECORD_HEADER_LEN, MUTATION_OP_LEN, MUTATION_OP_PAYLOAD_WORDS,
    RELATION_TYPE_NONE, SUPERBLOCK_CRC_PREFIX_LEN, SUPERBLOCK_LEN,
};

#[test]
fn relation_type_none_uses_sentinel() {
    assert_eq!(encode_relation_type(None), RELATION_TYPE_NONE);
    assert_eq!(decode_relation_type(RELATION_TYPE_NONE), None);
}

#[test]
fn relation_type_some_roundtrips_examples() {
    for raw in [1u64, 2, 77, u64::MAX] {
        let id = RelationTypeId::new(raw);
        assert_eq!(decode_relation_type(encode_relation_type(Some(id))), Some(id));
    }
}

#[test]
fn property_family_tags_roundtrip() {
    for family in [
        PropertyFamily::Element,
        PropertyFamily::Relation,
        PropertyFamily::Incidence,
    ] {
        assert_eq!(
            property_family_from_tag(property_family_tag(family)),
            Some(family)
        );
    }
    assert_eq!(property_family_from_tag(3), None);
}

#[test]
fn property_type_tags_roundtrip() {
    for value_type in [
        PropertyType::Boolean,
        PropertyType::Integer,
        PropertyType::Text,
    ] {
        assert_eq!(
            property_type_from_tag(property_type_tag(value_type)),
            Some(value_type)
        );
    }
    assert_eq!(property_type_from_tag(3), None);
}

#[test]
fn new_records_have_no_padding() {
    assert_eq!(BASE_TRAILER_LEN, 8);
    assert_eq!(SUPERBLOCK_LEN, 64);
    assert_eq!(LOG_RECORD_HEADER_LEN, 40);
    assert_eq!(MUTATION_OP_LEN, 8 + MUTATION_OP_PAYLOAD_WORDS * 8);
}

#[test]
fn superblock_crc_prefix_excludes_crc_and_pad() {
    assert_eq!(SUPERBLOCK_CRC_PREFIX_LEN, SUPERBLOCK_LEN - 8);
}

#[test]
fn flags_pack_roundtrips_examples() {
    for (low, high) in [(0u32, 0u32), (1, 2), (0xFFFF, 0), (0, 0xFFFF), (0x1234, 0xABCD)] {
        assert_eq!(unpack_flags(pack_flags(low, high)), (low, high));
    }
}
