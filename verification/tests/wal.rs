use oxgraph_db::crc::{checksum, checksum_append};
use oxgraph_db::error::StorageError;
use oxgraph_db::wal::{decode_superblock, encode_commit, encode_superblock, replay};
use oxgraph_db::wire::{
    MutationOp, SuperblockRecord, LOG_RECORD_HEADER_LEN, MUTATION_OP_PAYLOAD_WORDS,
    OP_CREATE_ELEMENT, OXGDB_FORMAT_VERSION, SUPERBLOCK_MAGIC,
};

fn op(op_kind: u32, flags: u32, words: &[u64]) -> MutationOp {
    let mut payload = [0u64; MUTATION_OP_PAYLOAD_WORDS];
    for (slot, value) in payload.iter_mut().zip(words) {
        *slot = *value;
    }
    MutationOp { op_kind, flags, payload }
}

fn superblock(base_generation: u64, checkpoint_lsn: u64, commit_seq: u64, transaction_id: u64, format_version: u32) -> SuperblockRecord {
    SuperblockRecord {
        magic: SUPERBLOCK_MAGIC,
        base_generation,
        checkpoint_lsn,
        log_byte_offset: 0,
        commit_seq,
        transaction_id,
        format_version,
        flags: 0,
        crc32c: 0,
        pad: 0,
    }
}

#[test]
fn single_commit_roundtrips() {
    let ops = vec![op(OP_CREATE_ELEMENT, 0, &[7])];
    let blob = b"hello".to_vec();
    let record = encode_commit(3, 5, 9, &ops, &blob).expect("encode");
    let outcome = replay(9, &record).expect("replay");
    assert_eq!(outcome.valid_len, record.len());
    assert_eq!(outcome.last_lsn, 3);
    assert_eq!(outcome.last_txn, 5);
    assert_eq!(outcome.frames.len(), 1);
    let frame = &outcome.frames[0];
    assert_eq!(frame.ops, ops);
    assert_eq!(frame.blob, blob);
    assert_eq!(frame.base_generation, 9);
}

#[test]
fn interior_corruption_is_loud() {
    let first = encode_commit(1, 1, 0, &[op(OP_CREATE_ELEMENT, 0, &[1])], b"").expect("encode");
    let second = encode_commit(2, 2, 0, &[op(OP_CREATE_ELEMENT, 0, &[2])], b"").expect("encode");
    let mut log = first;
    log.extend_from_slice(&second);
    let flip_at = LOG_RECORD_HEADER_LEN + 8;
    log[flip_at] ^= 0xFF;
    match replay(0, &log) {
        Err(StorageError::LogCorrupt { .. }) => {}
        other => panic!("expected LogCorrupt, got {other:?}"),
    }
}

#[test]
fn base_generation_mismatch_is_loud() {
    let g1a = encode_commit(1, 1, 1, &[op(OP_CREATE_ELEMENT, 0, &[1])], b"").expect("encode");
    let g2 = encode_commit(2, 2, 2, &[op(OP_CREATE_ELEMENT, 0, &[2])], b"").expect("encode");
    let g1b = encode_commit(3, 3, 1, &[op(OP_CREATE_ELEMENT, 0, &[3])], b"").expect("encode");
    let mut log = g1a;
    log.extend_from_slice(&g2);
    log.extend_from_slice(&g1b);
    match replay(1, &log) {
        Err(StorageError::BaseGenerationMismatch { expected, found }) => {
            assert_eq!(expected, 1);
            assert_eq!(found, 2);
        }
        other => panic!("expected BaseGenerationMismatch, got {other:?}"),
    }
}

#[test]
fn torn_tail_truncates_silently() {
    let first = encode_commit(1, 1, 0, &[op(OP_CREATE_ELEMENT, 0, &[1])], b"a").expect("encode");
    let second = encode_commit(2, 2, 0, &[op(OP_CREATE_ELEMENT, 0, &[2])], b"bb").expect("encode");
    let mut log = first.clone();
    log.extend_from_slice(&second);
    let cut = first.len() + 4;
    let outcome = replay(0, &log[..cut]).expect("replay");
    assert_eq!(outcome.valid_len, first.len());
    assert_eq!(outcome.frames.len(), 1);
    assert_eq!(outcome.last_lsn, 1);
}

#[test]
fn empty_log_replays_to_nothing() {
    let outcome = replay(4, &[]).expect("replay");
    assert_eq!(outcome.valid_len, 0);
    assert!(outcome.frames.is_empty());
    assert_eq!(outcome.last_lsn, 0);
    assert_eq!(outcome.last_txn, 0);
}

#[test]
fn record_length_matches_layout() {
    let ops = vec![op(OP_CREATE_ELEMENT, 0, &[1]), op(OP_CREATE_ELEMENT, 0, &[2])];
    let record = encode_commit(1, 1, 0, &ops, b"xyz").expect("encode");
    assert_eq!(record.len(), 40 + 2 * 80 + 3);
}

#[test]
fn superblock_roundtrips() {
    let sb = superblock(4, 11, 17, 19, OXGDB_FORMAT_VERSION);
    let bytes = encode_superblock(&sb);
    assert_eq!(bytes.len(), 64);
    let read = decode_superblock(&bytes).expect("read");
    assert_eq!(read.base_generation, 4);
    assert_eq!(read.checkpoint_lsn, 11);
    assert_eq!(read.commit_seq, 17);
    assert_eq!(read.transaction_id, 19);
    assert_eq!(read.crc32c, checksum(&bytes[..56]));
}

#[test]
fn superblock_corruption_detected() {
    let sb = superblock(1, 0, 0, 0, OXGDB_FORMAT_VERSION);
    let mut bytes = encode_superblock(&sb);
    bytes[8] ^= 0xFF;
    match decode_superblock(&bytes) {
        Err(StorageError::InvalidStore { .. }) => {}
        other => panic!("expected InvalidStore, got {other:?}"),
    }
}

#[test]
fn superblock_unsupported_version_rejected() {
    let sb = superblock(1, 0, 0, 0, OXGDB_FORMAT_VERSION + 1);
    let bytes = encode_superblock(&sb);
    match decode_superblock(&bytes) {
        Err(StorageError::InvalidStore { .. }) => {}
        other => panic!("expected InvalidStore, got {other:?}"),
    }
}

#[test]
fn superblock_rejects_wrong_size_and_magic() {
    let sb = superblock(1, 0, 0, 0, OXGDB_FORMAT_VERSION);
    let bytes = encode_superblock(&sb);
    assert_eq!(
        decode_superblock(&bytes[..63]),
        Err(StorageError::InvalidStore { reason: "superblock size mismatch" })
    );
    let mut bad = bytes.clone();
    bad[0] = b'X';
    assert_eq!(
        decode_superblock(&bad),
        Err(StorageError::InvalidStore { reason: "superblock magic mismatch" })
    );
}

#[test]
fn crc32c_check_value() {
    assert_eq!(checksum(b"123456789"), 0xE306_9283);
    assert_eq!(checksum(b""), 0);
    assert_eq!(checksum_append(checksum(b"1234"), b"56789"), checksum(b"123456789"));
}
