//! Delta-log (write-ahead log) record codec, replay, and superblock codec.
//!
//! A commit is encoded by [`encode_commit`] into one self-describing record:
//! a 40-byte header, `op_count` fixed 80-byte [`MutationOp`]s, then an
//! optional blob. The header's checksum covers the whole record except its own
//! four bytes. [`replay`] walks a log strictly by each record's `len`,
//! validating magic, base generation, framing, checksum, and ascending LSN. A
//! failing record with nothing fully valid after it is a torn tail and is
//! truncated silently; any other failure is loud.
use crate::codec::{
    lemma_le32_read, lemma_le64_read, lemma_le_lens, le32, le64, push_bytes, push_u32, push_u64, read_u32_at, read_u64_at, u32_at, u64_at,
};
use crate::crc::{checksum, checksum_append, lemma_checksum_append, spec_checksum};
use crate::error::StorageError;
use crate::wire::{MutationOp, SuperblockRecord, OXGDB_FORMAT_VERSION, OXGLOGR, SUPERBLOCK_MAGIC};
use vstd::prelude::*;
use vstd::slice::{slice_subrange, slice_to_vec};

verus! {

/// Byte length of a record header.
pub const HEADER_LEN: usize = 40;

/// Byte length of one mutation op.
pub const OP_LEN: usize = 80;

/// Byte offset of the header's checksum field.
pub const HEADER_CRC_OFFSET: usize = 36;

/// The bytes of an op's payload words, in order.
pub open spec fn payload_bytes(p: Seq<u64>) -> Seq<u8>
    decreases p.len(),
{
    if p.len() == 0 {
        Seq::empty()
    } else {
        payload_bytes(p.drop_last()) + le64(p.last())
    }
}

/// The 80 bytes of one mutation op.
pub open spec fn op_bytes(op: MutationOp) -> Seq<u8> {
    le32(op.op_kind) + le32(op.flags) + payload_bytes(op.payload@)
}

/// The bytes of a run of mutation ops, in order.
pub open spec fn ops_bytes(ops: Seq<MutationOp>) -> Seq<u8>
    decreases ops.len(),
{
    if ops.len() == 0 {
        Seq::empty()
    } else {
        ops_bytes(ops.drop_last()) + op_bytes(ops.last())
    }
}

/// The first 36 header bytes: every field before the checksum.
pub open spec fn header_prefix(
    base_generation: u64,
    lsn: u64,
    txn_id: u64,
    magic: u32,
    len: u32,
    op_count: u32,
) -> Seq<u8> {
    le64(base_generation) + le64(lsn) + le64(txn_id) + le32(magic) + le32(len) + le32(op_count)
}

/// Total byte length of a record carrying `n_ops` ops and a `blob_len` blob.
pub open spec fn record_len(n_ops: nat, blob_len: nat) -> int {
    (40 + 80 * n_ops + blob_len) as int
}

/// The checksum a record's header must carry: over every record byte except
/// the four checksum bytes.
pub open spec fn spec_record_crc(record: Seq<u8>) -> u32 {
    spec_checksum(record.subrange(0, 36) + record.subrange(40, record.len() as int))
}

/// The exact bytes [`encode_commit`] produces for one commit.
pub open spec fn spec_encode_commit(
    lsn: u64,
    txn_id: u64,
    base_generation: u64,
    ops: Seq<MutationOp>,
    blob: Seq<u8>,
) -> Seq<u8> {
    let prefix = header_prefix(
        base_generation,
        lsn,
        txn_id,
        OXGLOGR,
        record_len(ops.len(), blob.len()) as u32,
        ops.len() as u32,
    );
    let body = ops_bytes(ops) + blob;
    prefix + le32(spec_checksum(prefix + body)) + body
}

/// The op stored in the 80 bytes `s`.
pub open spec fn spec_decode_op(s: Seq<u8>) -> MutationOp {
    MutationOp {
        op_kind: u32_at(s, 0),
        flags: u32_at(s, 4),
        payload: [
            u64_at(s, 8),
            u64_at(s, 16),
            u64_at(s, 24),
            u64_at(s, 32),
            u64_at(s, 40),
            u64_at(s, 48),
            u64_at(s, 56),
            u64_at(s, 64),
            u64_at(s, 72),
        ],
    }
}

/// The `n` ops stored back to back at the start of `s`.
pub open spec fn spec_decode_ops(s: Seq<u8>, n: nat) -> Seq<MutationOp> {
    Seq::new(n, |i: int| spec_decode_op(s.subrange(80 * i, 80 * i + 80)))
}

/// One decoded, owned delta-log commit record.
#[derive(Clone, Debug, PartialEq, Eq)]
pub struct CommitFrame {
    /// Log sequence number of this commit.
    pub lsn: u64,
    /// Writer transaction id that produced this commit.
    pub txn_id: u64,
    /// Base generation this commit applies over.
    pub base_generation: u64,
    /// Decoded mutation ops in record order.
    pub ops: Vec<MutationOp>,
    /// Owned blob holding the record's variable-length bytes.
    pub blob: Vec<u8>,
}

/// The content of a [`CommitFrame`].
pub struct FrameView {
    /// Log sequence number.
    pub lsn: u64,
    /// Writer transaction id.
    pub txn_id: u64,
    /// Base generation.
    pub base_generation: u64,
    /// Ops in record order.
    pub ops: Seq<MutationOp>,
    /// Blob bytes.
    pub blob: Seq<u8>,
}

impl View for CommitFrame {
    type V = FrameView;

    open spec fn view(&self) -> FrameView {
        FrameView {
            lsn: self.lsn,
            txn_id: self.txn_id,
            base_generation: self.base_generation,
            ops: self.ops@,
            blob: self.blob@,
        }
    }
}

/// Result of replaying a delta-log buffer.
#[derive(Clone, Debug, PartialEq, Eq)]
pub struct ReplayOutcome {
    /// Recovered frames in ascending LSN order.
    pub frames: Vec<CommitFrame>,
    /// Byte length of the valid prefix; bytes after this are torn-tail garbage.
    pub valid_len: usize,
    /// LSN of the last recovered frame, or `0` when none were recovered.
    pub last_lsn: u64,
    /// Txn id of the last recovered frame, or `0` when none were recovered.
    pub last_txn: u64,
}

/// The content of a [`ReplayOutcome`].
pub struct ReplayView {
    /// Recovered frames.
    pub frames: Seq<FrameView>,
    /// Byte length of the valid prefix.
    pub valid_len: nat,
    /// LSN of the last recovered frame, or `0`.
    pub last_lsn: u64,
    /// Txn id of the last recovered frame, or `0`.
    pub last_txn: u64,
}

impl View for ReplayOutcome {
    type V = ReplayView;

    open spec fn view(&self) -> ReplayView {
        ReplayView {
            frames: self.frames@.map_values(|f: CommitFrame| f@),
            valid_len: self.valid_len as nat,
            last_lsn: self.last_lsn,
            last_txn: self.last_txn,
        }
    }
}

/// Outcome of parsing the record at the head of a buffer.
pub enum ParseStep {
    /// Torn tail: replay stops silently and keeps the prefix.
    Stop,
    /// Loud corruption.
    Loud(StorageError),
    /// A valid record occupying `len` bytes.
    Frame(FrameView, nat),
}

/// A failed check is a torn tail when nothing fully valid can follow.
pub open spec fn tail_or_loud_spec(is_last: bool, error: StorageError) -> ParseStep {
    if is_last {
        ParseStep::Stop
    } else {
        ParseStep::Loud(error)
    }
}

/// Classifies the record at the head of `rem`, given whether a record was
/// already accepted and the last accepted LSN.
pub open spec fn spec_parse_record(
    base_generation: u64,
    rem: Seq<u8>,
    seen: bool,
    last_lsn: u64,
) -> ParseStep {
    if rem.len() < 40 {
        ParseStep::Stop
    } else {
        let magic = u32_at(rem, 24);
        let len = u32_at(rem, 28) as int;
        let op_count = u32_at(rem, 32) as int;
        let lsn = u64_at(rem, 8);
        let generation = u64_at(rem, 0);
        let body_len = 40 + 80 * op_count;
        let well_framed = body_len <= len && len <= rem.len() && len >= 40;
        let is_last = !well_framed || len >= rem.len();
        if magic != OXGLOGR {
            tail_or_loud_spec(
                is_last,
                StorageError::LogCorrupt { lsn, reason: "delta-log record magic mismatch" },
            )
        } else if generation != base_generation {
            tail_or_loud_spec(
                is_last,
                StorageError::BaseGenerationMismatch {
                    expected: base_generation,
                    found: generation,
                },
            )
        } else if len < body_len || len < 40 {
            tail_or_loud_spec(
                is_last,
                StorageError::LogCorrupt {
                    lsn,
                    reason: "delta-log record length undershoots its framing",
                },
            )
        } else if len > rem.len() {
            ParseStep::Stop
        } else if spec_record_crc(rem.subrange(0, len)) != u32_at(rem, 36) {
            tail_or_loud_spec(
                is_last,
                StorageError::LogCorrupt { lsn, reason: "delta-log record checksum mismatch" },
            )
        } else if seen && lsn <= last_lsn {
            ParseStep::Loud(
                StorageError::LogCorrupt {
                    lsn,
                    reason: "delta-log record LSN not strictly ascending",
                },
            )
        } else {
            ParseStep::Frame(
                FrameView {
                    lsn,
                    txn_id: u64_at(rem, 16),
                    base_generation: generation,
                    ops: spec_decode_ops(rem.subrange(40, body_len), op_count as nat),
                    blob: rem.subrange(body_len, len),
                },
                len as nat,
            )
        }
    }
}

/// Replays `log` from byte `offset`, having recovered `frames` so far.
pub open spec fn spec_replay_from(
    base_generation: u64,
    log: Seq<u8>,
    offset: nat,
    seen: bool,
    last_lsn: u64,
    last_txn: u64,
    frames: Seq<FrameView>,
) -> Result<ReplayView, StorageError>
    decreases log.len() - offset,
{
    let done = ReplayView { frames, valid_len: offset, last_lsn, last_txn };
    if offset >= log.len() {
        Ok(done)
    } else {
        match spec_parse_record(base_generation, log.subrange(offset as int, log.len() as int), seen, last_lsn) {
            ParseStep::Stop => Ok(done),
            ParseStep::Loud(error) => Err(error),
            ParseStep::Frame(frame, len) => if len > 0 {
                spec_replay_from(
                    base_generation,
                    log,
                    offset + len,
                    true,
                    frame.lsn,
                    frame.txn_id,
                    frames.push(frame),
                )
            } else {
                Ok(done)
            },
        }
    }
}

/// The outcome of replaying a whole log against `base_generation`.
pub open spec fn spec_replay(base_generation: u64, log: Seq<u8>) -> Result<ReplayView, StorageError> {
    spec_replay_from(base_generation, log, 0, false, 0, 0, Seq::empty())
}

/// Appends the bytes of one op.
fn push_op(out: &mut Vec<u8>, op: &MutationOp)
    ensures
        final(out)@ == old(out)@ + op_bytes(*op),
{
    push_u32(out, op.op_kind);
    push_u32(out, op.flags);
    let ghost start = out@;
    let mut i: usize = 0;
    while i < 9
        invariant
            i <= 9,
            out@ == start + payload_bytes(op.payload@.subrange(0, i as int)),
        decreases 9 - i,
    {
        proof {
            assert(op.payload@.subrange(0, i as int + 1).drop_last() =~= op.payload@.subrange(
                0,
                i as int,
            ));
        }
        push_u64(out, op.payload[i]);
        i = i + 1;
    }
    proof {
        assert(op.payload@.subrange(0, 9) =~= op.payload@);
    }
}

/// Computes the checksum a record's header carries: over the whole record
/// except the four checksum-field bytes, chained across the two slices.
fn record_crc(record: &[u8]) -> (crc: u32)
    requires
        record@.len() >= 40,
    ensures
        crc == spec_record_crc(record@),
{
    let n = record.len();
    let prefix = slice_subrange(record, 0, HEADER_CRC_OFFSET);
    let suffix = slice_subrange(record, HEADER_CRC_OFFSET + 4, n);
    proof {
        lemma_checksum_append(prefix@, suffix@);
    }
    checksum_append(checksum(prefix), suffix)
}

/// Encodes one commit into a self-describing delta-log record.
///
/// Fails with `InvalidStore` when the record length does not fit the header's
/// `u32` length field.
pub fn encode_commit(
    lsn: u64,
    txn_id: u64,
    base_generation: u64,
    ops: &[MutationOp],
    blob: &[u8],
) -> (r: Result<Vec<u8>, StorageError>)
    ensures
        record_len(ops@.len(), blob@.len()) <= u32::MAX ==> (r matches Ok(bytes) && bytes@
            == spec_encode_commit(lsn, txn_id, base_generation, ops@, blob@)),
        record_len(ops@.len(), blob@.len()) > u32::MAX ==> r == Err::<Vec<u8>, StorageError>(
            StorageError::InvalidStore { reason: "delta-log record too large" },
        ),
{
    let n_ops = ops.len();
    let n_blob = blob.len();
    let total: u128 = 40u128 + 80u128 * (n_ops as u128) + (n_blob as u128);
    if total > u32::MAX as u128 {
        return Err(StorageError::invalid_store("delta-log record too large"));
    }
    let len = total as u32;
    let op_count = n_ops as u32;
    let mut prefix: Vec<u8> = Vec::new();
    push_u64(&mut prefix, base_generation);
    push_u64(&mut prefix, lsn);
    push_u64(&mut prefix, txn_id);
    push_u32(&mut prefix, OXGLOGR);
    push_u32(&mut prefix, len);
    push_u32(&mut prefix, op_count);
    let mut body: Vec<u8> = Vec::new();
    let mut i: usize = 0;
    while i < n_ops
        invariant
            i <= n_ops,
            n_ops == ops@.len(),
            body@ == ops_bytes(ops@.subrange(0, i as int)),
        decreases n_ops - i,
    {
        proof {
            assert(ops@.subrange(0, i as int + 1).drop_last() =~= ops@.subrange(0, i as int));
        }
        push_op(&mut body, &ops[i]);
        i = i + 1;
    }
    proof {
        assert(ops@.subrange(0, n_ops as int) =~= ops@);
    }
    push_bytes(&mut body, blob);
    proof {
        lemma_checksum_append(prefix@, body@);
    }
    let crc = checksum_append(checksum(prefix.as_slice()), body.as_slice());
    let mut record = prefix;
    push_u32(&mut record, crc);
    record.append(&mut body);
    Ok(record)
}

/// Decodes the op stored at byte `pos`.
fn decode_op_at(s: &[u8], pos: usize) -> (op: MutationOp)
    requires
        pos + 80 <= s@.len(),
    ensures
        op == spec_decode_op(s@.subrange(pos as int, pos + 80int)),
{
    let _n = s.len();
    let chunk = slice_subrange(s, pos, pos + 80);
    MutationOp {
        op_kind: read_u32_at(chunk, 0),
        flags: read_u32_at(chunk, 4),
        payload: [
            read_u64_at(chunk, 8),
            read_u64_at(chunk, 16),
            read_u64_at(chunk, 24),
            read_u64_at(chunk, 32),
            read_u64_at(chunk, 40),
            read_u64_at(chunk, 48),
            read_u64_at(chunk, 56),
            read_u64_at(chunk, 64),
            read_u64_at(chunk, 72),
        ],
    }
}

/// Decodes the `op_count` ops of a validated record and copies its blob.
fn decode_ops(record: &[u8], framed_min: usize, op_count: usize) -> (out: (Vec<MutationOp>, Vec<u8>))
    requires
        framed_min == 40 + 80 * op_count,
        framed_min <= record@.len(),
    ensures
        out.0@ == spec_decode_ops(record@.subrange(40, framed_min as int), op_count as nat),
        out.1@ == record@.subrange(framed_min as int, record@.len() as int),
{
    let ghost ops_region = record@.subrange(40, framed_min as int);
    let mut ops: Vec<MutationOp> = Vec::new();
    let mut i: usize = 0;
    while i < op_count
        invariant
            i <= op_count,
            framed_min == 40 + 80 * op_count,
            framed_min <= record@.len(),
            ops_region == record@.subrange(40, framed_min as int),
            ops@ =~= spec_decode_ops(ops_region, op_count as nat).subrange(0, i as int),
        decreases op_count - i,
    {
        let op = decode_op_at(record, 40 + 80 * i);
        proof {
            assert(record@.subrange(40 + 80 * i, 40 + 80 * i + 80) =~= ops_region.subrange(
                80 * i,
                80 * i + 80,
            ));
        }
        ops.push(op);
        i = i + 1;
    }
    let n = record.len();
    let blob = slice_to_vec(slice_subrange(record, framed_min, n));
    (ops, blob)
}

/// LSN-ascending state carried across records.
#[derive(Clone, Copy)]
struct LsnCursor {
    /// LSN of the last accepted record; meaningful only when `seen`.
    last_lsn: u64,
    /// Whether any record has been accepted yet.
    seen: bool,
}

/// Executable outcome of parsing one record.
enum RecordParse {
    /// Torn tail.
    Stop,
    /// Loud corruption.
    Loud(StorageError),
    /// A valid record and its byte length.
    Frame(CommitFrame, usize),
}

/// Whether an executable parse outcome matches its specification.
spec fn parse_matches(r: RecordParse, s: ParseStep) -> bool {
    match (r, s) {
        (RecordParse::Stop, ParseStep::Stop) => true,
        (RecordParse::Loud(e1), ParseStep::Loud(e2)) => e1 == e2,
        (RecordParse::Frame(f, n), ParseStep::Frame(g, m)) => f@ == g && n == m,
        _ => false,
    }
}

/// A failed check is a torn tail when nothing fully valid can follow.
fn tail_or_loud(is_last: bool, error: StorageError) -> (r: RecordParse)
    ensures
        parse_matches(r, tail_or_loud_spec(is_last, error)),
{
    if is_last {
        RecordParse::Stop
    } else {
        RecordParse::Loud(error)
    }
}

/// Parses the single record at the head of `remaining`.
fn parse_one_record(base_generation: u64, remaining: &[u8], cursor: LsnCursor) -> (r: RecordParse)
    ensures
        parse_matches(
            r,
            spec_parse_record(base_generation, remaining@, cursor.seen, cursor.last_lsn),
        ),
{
    let rem_len = remaining.len();
    if rem_len < HEADER_LEN {
        return RecordParse::Stop;
    }
    let generation = read_u64_at(remaining, 0);
    let lsn = read_u64_at(remaining, 8);
    let txn_id = read_u64_at(remaining, 16);
    let magic = read_u32_at(remaining, 24);
    let len32 = read_u32_at(remaining, 28);
    let op_count32 = read_u32_at(remaining, 32);
    let stored_crc = read_u32_at(remaining, 36);
    let len = len32 as u64;
    let body_len: u64 = 40 + 80 * (op_count32 as u64);
    let rem = rem_len as u64;
    let well_framed = body_len <= len && len <= rem && len >= 40;
    let is_last = !well_framed || len >= rem;
    if magic != OXGLOGR {
        return tail_or_loud(
            is_last,
            StorageError::LogCorrupt { lsn, reason: "delta-log record magic mismatch" },
        );
    }
    if generation != base_generation {
        return tail_or_loud(
            is_last,
            StorageError::BaseGenerationMismatch { expected: base_generation, found: generation },
        );
    }
    if len < body_len || len < 40 {
        return tail_or_loud(
            is_last,
            StorageError::LogCorrupt {
                lsn,
                reason: "delta-log record length undershoots its framing",
            },
        );
    }
    if len > rem {
        return RecordParse::Stop;
    }
    let len_usize = len as usize;
    let record = slice_subrange(remaining, 0, len_usize);
    if record_crc(record) != stored_crc {
        return tail_or_loud(
            is_last,
            StorageError::LogCorrupt { lsn, reason: "delta-log record checksum mismatch" },
        );
    }
    if cursor.seen && lsn <= cursor.last_lsn {
        return RecordParse::Loud(
            StorageError::LogCorrupt { lsn, reason: "delta-log record LSN not strictly ascending" },
        );
    }
    let framed_min = body_len as usize;
    let (ops, blob) = decode_ops(record, framed_min, op_count32 as usize);
    proof {
        assert(record@.subrange(40, framed_min as int) =~= remaining@.subrange(40, framed_min as int));
        assert(record@.subrange(framed_min as int, record@.len() as int) =~= remaining@.subrange(
            framed_min as int,
            len as int,
        ));
    }
    RecordParse::Frame(
        CommitFrame { lsn, txn_id, base_generation: generation, ops, blob },
        len_usize,
    )
}

/// Replays a delta-log buffer against `base_generation`, returning the
/// maximal valid prefix of frames, or the loud error of a corrupt non-tail
/// record.
pub fn replay(base_generation: u64, log: &[u8]) -> (r: Result<ReplayOutcome, StorageError>)
    ensures
        match (r, spec_replay(base_generation, log@)) {
            (Ok(outcome), Ok(expected)) => outcome@ == expected,
            (Err(e1), Err(e2)) => e1 == e2,
            _ => false,
        },
{
    let mut frames: Vec<CommitFrame> = Vec::new();
    let mut offset: usize = 0;
    let mut last_lsn: u64 = 0;
    let mut last_txn: u64 = 0;
    let mut seen = false;
    let n = log.len();
    proof {
        assert(frames@.map_values(|f: CommitFrame| f@) =~= Seq::<FrameView>::empty());
    }
    while offset < n
        invariant
            n == log@.len(),
            offset <= n,
            spec_replay(base_generation, log@) == spec_replay_from(
                base_generation,
                log@,
                offset as nat,
                seen,
                last_lsn,
                last_txn,
                frames@.map_values(|f: CommitFrame| f@),
            ),
        ensures
            spec_replay(base_generation, log@) == Ok::<ReplayView, StorageError>(
                ReplayView {
                    frames: frames@.map_values(|f: CommitFrame| f@),
                    valid_len: offset as nat,
                    last_lsn,
                    last_txn,
                },
            ),
        decreases n - offset,
    {
        let cursor = LsnCursor { last_lsn, seen };
        let rest = slice_subrange(log, offset, n);
        match parse_one_record(base_generation, rest, cursor) {
            RecordParse::Stop => {
                break;
            },
            RecordParse::Loud(error) => {
                return Err(error);
            },
            RecordParse::Frame(frame, len) => {
                if len == 0 || len > n - offset {
                    break;
                }
                last_lsn = frame.lsn;
                last_txn = frame.txn_id;
                seen = true;
                let ghost old_frames = frames@;
                frames.push(frame);
                proof {
                    assert(frames@.map_values(|f: CommitFrame| f@) =~= old_frames.map_values(
                        |f: CommitFrame| f@,
                    ).push(frame@));
                }
                offset = offset + len;
            },
        }
    }
    Ok(ReplayOutcome { frames, valid_len: offset, last_lsn, last_txn })
}


/// An op's payload occupies eight bytes per word.
proof fn lemma_payload_len(p: Seq<u64>)
    ensures
        payload_bytes(p).len() == 8 * p.len(),
    decreases p.len(),
{
    if p.len() > 0 {
        lemma_payload_len(p.drop_last());
        lemma_le_lens(0, p.last());
    }
}

/// Every op encodes to exactly 80 bytes.
proof fn lemma_op_len(op: MutationOp)
    ensures
        op_bytes(op).len() == 80,
{
    lemma_payload_len(op.payload@);
    lemma_le_lens(op.op_kind, 0);
    lemma_le_lens(op.flags, 0);
}

/// A run of ops encodes to 80 bytes per op.
proof fn lemma_ops_len(ops: Seq<MutationOp>)
    ensures
        ops_bytes(ops).len() == 80 * ops.len(),
    decreases ops.len(),
{
    if ops.len() > 0 {
        lemma_ops_len(ops.drop_last());
        lemma_op_len(ops.last());
    }
}

/// Reading a `u64` at an offset inside the second half of a concatenation.
proof fn lemma_u64_at_shift(a: Seq<u8>, b: Seq<u8>, j: int)
    requires
        0 <= j,
        j + 8 <= b.len(),
    ensures
        u64_at(a + b, a.len() + j) == u64_at(b, j),
{
    assert((a + b).subrange(a.len() + j, a.len() + j + 8) =~= b.subrange(j, j + 8));
}

/// Reading a `u64` at an offset inside the first half of a concatenation.
proof fn lemma_u64_at_prefix(a: Seq<u8>, b: Seq<u8>, j: int)
    requires
        0 <= j,
        j + 8 <= a.len(),
    ensures
        u64_at(a + b, j) == u64_at(a, j),
{
    assert((a + b).subrange(j, j + 8) =~= a.subrange(j, j + 8));
}

/// Reading a `u32` at an offset inside the first half of a concatenation.
proof fn lemma_u32_at_prefix(a: Seq<u8>, b: Seq<u8>, j: int)
    requires
        0 <= j,
        j + 4 <= a.len(),
    ensures
        u32_at(a + b, j) == u32_at(a, j),
{
    assert((a + b).subrange(j, j + 4) =~= a.subrange(j, j + 4));
}

/// Word `i` of a payload reads back from its encoding.
proof fn lemma_payload_read(p: Seq<u64>, i: int)
    requires
        0 <= i < p.len(),
    ensures
        u64_at(payload_bytes(p), 8 * i) == p[i],
    decreases p.len(),
{
    let init = p.drop_last();
    lemma_payload_len(init);
    lemma_le_lens(0, p.last());
    if i == p.len() - 1 {
        lemma_le64_read(payload_bytes(init), p.last(), Seq::empty());
        assert(payload_bytes(init) + le64(p.last()) + Seq::<u8>::empty() =~= payload_bytes(p));
    } else {
        lemma_payload_read(init, i);
        lemma_u64_at_prefix(payload_bytes(init), le64(p.last()), 8 * i);
    }
}

/// Every mutation op round-trips through its fixed-size byte record:
/// decoding the bytes an op encodes to gives the same op back.
pub proof fn lemma_decode_op(op: MutationOp)
    ensures
        spec_decode_op(op_bytes(op)) == op,
{
    let pb = payload_bytes(op.payload@);
    lemma_payload_len(op.payload@);
    lemma_le_lens(op.op_kind, 0);
    lemma_le_lens(op.flags, 0);
    let bytes = op_bytes(op);
    lemma_le32_read(Seq::empty(), op.op_kind, le32(op.flags) + pb);
    assert(Seq::<u8>::empty() + le32(op.op_kind) + (le32(op.flags) + pb) =~= bytes);
    lemma_le32_read(le32(op.op_kind), op.flags, pb);
    let head = le32(op.op_kind) + le32(op.flags);
    assert(bytes =~= head + pb);
    assert forall|i: int| 0 <= i < 9 implies u64_at(bytes, 8 + 8 * i) == op.payload@[i] by {
        lemma_u64_at_shift(head, pb, 8 * i);
        lemma_payload_read(op.payload@, i);
    }
    let d = spec_decode_op(bytes);
    assert(d.payload@ =~= op.payload@) by {
        assert(u64_at(bytes, 8 + 8 * 0int) == op.payload@[0]);
        assert(u64_at(bytes, 8 + 8 * 1int) == op.payload@[1]);
        assert(u64_at(bytes, 8 + 8 * 2int) == op.payload@[2]);
        assert(u64_at(bytes, 8 + 8 * 3int) == op.payload@[3]);
        assert(u64_at(bytes, 8 + 8 * 4int) == op.payload@[4]);
        assert(u64_at(bytes, 8 + 8 * 5int) == op.payload@[5]);
        assert(u64_at(bytes, 8 + 8 * 6int) == op.payload@[6]);
        assert(u64_at(bytes, 8 + 8 * 7int) == op.payload@[7]);
        assert(u64_at(bytes, 8 + 8 * 8int) == op.payload@[8]);
    }
    assert(d.op_kind == op.op_kind);
    assert(d.flags == op.flags);
    assert(d.payload == op.payload);
}

/// Op `i` of a run occupies bytes `80 i .. 80 i + 80` of the run's encoding.
proof fn lemma_ops_segment(ops: Seq<MutationOp>, i: int)
    requires
        0 <= i < ops.len(),
    ensures
        ops_bytes(ops).subrange(80 * i, 80 * i + 80) == op_bytes(ops[i]),
    decreases ops.len(),
{
    let init = ops.drop_last();
    lemma_ops_len(init);
    lemma_op_len(ops.last());
    if i == ops.len() - 1 {
        assert(ops_bytes(ops).subrange(80 * i, 80 * i + 80) =~= op_bytes(ops.last()));
    } else {
        lemma_ops_segment(init, i);
        assert(ops_bytes(ops).subrange(80 * i, 80 * i + 80) =~= ops_bytes(init).subrange(
            80 * i,
            80 * i + 80,
        ));
    }
}

/// Decoding a run of ops gives the run back.
proof fn lemma_decode_ops(ops: Seq<MutationOp>)
    ensures
        spec_decode_ops(ops_bytes(ops), ops.len()) == ops,
{
    assert forall|i: int| 0 <= i < ops.len() implies spec_decode_ops(
        ops_bytes(ops),
        ops.len(),
    )[i] == ops[i] by {
        lemma_ops_segment(ops, i);
        lemma_decode_op(ops[i]);
    }
    assert(spec_decode_ops(ops_bytes(ops), ops.len()) =~= ops);
}

/// Whether a frame can be encoded over `base_generation`: it names that
/// generation and its record length fits the header's `u32` field.
pub open spec fn frame_encodable(base_generation: u64, f: FrameView) -> bool {
    &&& f.base_generation == base_generation
    &&& record_len(f.ops.len(), f.blob.len()) <= u32::MAX
}

/// The record bytes of one frame.
pub open spec fn frame_bytes(f: FrameView) -> Seq<u8> {
    spec_encode_commit(f.lsn, f.txn_id, f.base_generation, f.ops, f.blob)
}

/// The records of a run of frames, back to back.
pub open spec fn frames_bytes(fs: Seq<FrameView>) -> Seq<u8>
    decreases fs.len(),
{
    if fs.len() == 0 {
        Seq::empty()
    } else {
        frame_bytes(fs[0]) + frames_bytes(fs.drop_first())
    }
}

/// The fields of a record header read back at their offsets.
#[verifier::rlimit(40)]
proof fn lemma_header_fields(
    generation: u64,
    lsn: u64,
    txn_id: u64,
    magic: u32,
    len: u32,
    op_count: u32,
    crc: u32,
)
    ensures
        ({
            let h = header_prefix(generation, lsn, txn_id, magic, len, op_count) + le32(crc);
            &&& header_prefix(generation, lsn, txn_id, magic, len, op_count).len() == 36
            &&& h.len() == 40
            &&& u64_at(h, 0) == generation
            &&& u64_at(h, 8) == lsn
            &&& u64_at(h, 16) == txn_id
            &&& u32_at(h, 24) == magic
            &&& u32_at(h, 28) == len
            &&& u32_at(h, 32) == op_count
            &&& u32_at(h, 36) == crc
        }),
{
    let g = le64(generation);
    let l = le64(lsn);
    let t = le64(txn_id);
    let m = le32(magic);
    let ln = le32(len);
    let c = le32(op_count);
    let k = le32(crc);
    let h = g + l + t + m + ln + c + k;
    lemma_le_lens(magic, generation);
    lemma_le_lens(len, lsn);
    lemma_le_lens(op_count, txn_id);
    lemma_le_lens(crc, 0);
    lemma_le64_read(Seq::empty(), generation, l + t + m + ln + c + k);
    assert(Seq::<u8>::empty() + g + (l + t + m + ln + c + k) =~= h);
    lemma_le64_read(g, lsn, t + m + ln + c + k);
    assert(g + l + (t + m + ln + c + k) =~= h);
    lemma_le64_read(g + l, txn_id, m + ln + c + k);
    assert(g + l + t + (m + ln + c + k) =~= h);
    lemma_le32_read(g + l + t, magic, ln + c + k);
    assert(g + l + t + m + (ln + c + k) =~= h);
    lemma_le32_read(g + l + t + m, len, c + k);
    assert(g + l + t + m + ln + (c + k) =~= h);
    lemma_le32_read(g + l + t + m + ln, op_count, k);
    lemma_le32_read(g + l + t + m + ln + c, crc, Seq::empty());
    assert(g + l + t + m + ln + c + k + Seq::<u8>::empty() =~= h);
}

/// The fields and length of an encoded record.
proof fn lemma_frame_layout(f: FrameView)
    requires
        record_len(f.ops.len(), f.blob.len()) <= u32::MAX,
    ensures
        ({
            let e = frame_bytes(f);
            let n = f.ops.len() as int;
            let len = record_len(f.ops.len(), f.blob.len());
            &&& e.len() == len
            &&& u64_at(e, 0) == f.base_generation
            &&& u64_at(e, 8) == f.lsn
            &&& u64_at(e, 16) == f.txn_id
            &&& u32_at(e, 24) == OXGLOGR
            &&& u32_at(e, 28) as int == len
            &&& u32_at(e, 32) as int == n
            &&& u32_at(e, 36) == spec_record_crc(e)
            &&& e.subrange(40, 40 + 80 * n) == ops_bytes(f.ops)
            &&& e.subrange(40 + 80 * n, len) == f.blob
        }),
{
    let n = f.ops.len() as int;
    let len = record_len(f.ops.len(), f.blob.len());
    let body = ops_bytes(f.ops) + f.blob;
    let prefix = header_prefix(
        f.base_generation,
        f.lsn,
        f.txn_id,
        OXGLOGR,
        len as u32,
        f.ops.len() as u32,
    );
    let crc = spec_checksum(prefix + body);
    let h = prefix + le32(crc);
    let e = frame_bytes(f);
    lemma_header_fields(f.base_generation, f.lsn, f.txn_id, OXGLOGR, len as u32, f.ops.len() as u32, crc);
    lemma_ops_len(f.ops);
    assert(e =~= h + body);
    lemma_u64_at_prefix(h, body, 0);
    lemma_u64_at_prefix(h, body, 8);
    lemma_u64_at_prefix(h, body, 16);
    lemma_u32_at_prefix(h, body, 24);
    lemma_u32_at_prefix(h, body, 28);
    lemma_u32_at_prefix(h, body, 32);
    lemma_u32_at_prefix(h, body, 36);
    assert(e.subrange(0, 36) =~= prefix);
    assert(e.subrange(40, e.len() as int) =~= body);
    assert(e.subrange(40, 40 + 80 * n) =~= ops_bytes(f.ops));
    assert(e.subrange(40 + 80 * n, len) =~= f.blob);
}

/// A complete record followed by anything parses as its frame, provided its
/// LSN ascends past the last accepted one.
proof fn lemma_parse_full(
    base_generation: u64,
    f: FrameView,
    rest: Seq<u8>,
    seen: bool,
    last_lsn: u64,
)
    requires
        frame_encodable(base_generation, f),
        seen ==> f.lsn > last_lsn,
    ensures
        spec_parse_record(base_generation, frame_bytes(f) + rest, seen, last_lsn)
            == ParseStep::Frame(f, record_len(f.ops.len(), f.blob.len()) as nat),
{
    let e = frame_bytes(f);
    let rem = e + rest;
    let n = f.ops.len() as int;
    let len = record_len(f.ops.len(), f.blob.len());
    lemma_frame_layout(f);
    lemma_u64_at_prefix(e, rest, 0);
    lemma_u64_at_prefix(e, rest, 8);
    lemma_u64_at_prefix(e, rest, 16);
    lemma_u32_at_prefix(e, rest, 24);
    lemma_u32_at_prefix(e, rest, 28);
    lemma_u32_at_prefix(e, rest, 32);
    lemma_u32_at_prefix(e, rest, 36);
    assert(rem.subrange(0, len) =~= e);
    assert(rem.subrange(40, 40 + 80 * n) =~= e.subrange(40, 40 + 80 * n));
    assert(rem.subrange(40 + 80 * n, len) =~= e.subrange(40 + 80 * n, len));
    lemma_decode_ops(f.ops);
}

/// A proper prefix of a record is a torn tail.
proof fn lemma_parse_partial(
    base_generation: u64,
    f: FrameView,
    p: Seq<u8>,
    seen: bool,
    last_lsn: u64,
)
    requires
        frame_encodable(base_generation, f),
        p.len() < frame_bytes(f).len(),
        p =~= frame_bytes(f).subrange(0, p.len() as int),
    ensures
        spec_parse_record(base_generation, p, seen, last_lsn) == ParseStep::Stop,
{
    if p.len() >= 40 {
        let e = frame_bytes(f);
        lemma_frame_layout(f);
        let rest = e.subrange(p.len() as int, e.len() as int);
        assert(e =~= p + rest);
        lemma_u64_at_prefix(p, rest, 0);
        lemma_u64_at_prefix(p, rest, 8);
        lemma_u32_at_prefix(p, rest, 24);
        lemma_u32_at_prefix(p, rest, 28);
        lemma_u32_at_prefix(p, rest, 32);
    }
}

/// Whether `tail` is empty or a proper prefix of the record of `next`.
pub open spec fn torn_tail_of(base_generation: u64, tail: Seq<u8>, next: FrameView) -> bool {
    tail.len() == 0 || (frame_encodable(base_generation, next) && tail.len() < frame_bytes(
        next,
    ).len() && tail =~= frame_bytes(next).subrange(0, tail.len() as int))
}

/// Whether a run of frames is encodable over `base_generation` with strictly
/// ascending LSNs.
pub open spec fn frames_well_formed(base_generation: u64, fs: Seq<FrameView>) -> bool {
    &&& forall|i: int| 0 <= i < fs.len() ==> frame_encodable(base_generation, #[trigger] fs[i])
    &&& forall|i: int, j: int| 0 <= i < j < fs.len() ==> #[trigger] fs[i].lsn < #[trigger] fs[j].lsn
}

/// The last LSN of `acc + fs`, or `last` when `fs` is empty.
pub open spec fn last_lsn_after(fs: Seq<FrameView>, last: u64) -> u64 {
    if fs.len() == 0 {
        last
    } else {
        fs.last().lsn
    }
}

/// The last txn id of `acc + fs`, or `last` when `fs` is empty.
pub open spec fn last_txn_after(fs: Seq<FrameView>, last: u64) -> u64 {
    if fs.len() == 0 {
        last
    } else {
        fs.last().txn_id
    }
}

/// The encoded length of a run of frames.
proof fn lemma_frames_len(fs: Seq<FrameView>)
    requires
        forall|i: int| 0 <= i < fs.len() ==> record_len(#[trigger] fs[i].ops.len(), fs[i].blob.len()) <= u32::MAX,
    ensures
        frames_bytes(fs).len() >= 40 * fs.len(),
    decreases fs.len(),
{
    if fs.len() > 0 {
        lemma_frame_layout(fs[0]);
        assert forall|i: int| 0 <= i < fs.drop_first().len() implies record_len(
            #[trigger] fs.drop_first()[i].ops.len(),
            fs.drop_first()[i].blob.len(),
        ) <= u32::MAX by {
            assert(fs.drop_first()[i] == fs[i + 1]);
        }
        lemma_frames_len(fs.drop_first());
    }
}

/// Replay from an offset whose remaining bytes are the records of `fs`
/// followed by a torn tail recovers exactly `fs`.
proof fn lemma_replay_frames(
    base_generation: u64,
    log: Seq<u8>,
    off: nat,
    fs: Seq<FrameView>,
    tail: Seq<u8>,
    next: FrameView,
    seen: bool,
    last_lsn: u64,
    last_txn: u64,
    acc: Seq<FrameView>,
)
    requires
        off <= log.len(),
        log.subrange(off as int, log.len() as int) =~= frames_bytes(fs) + tail,
        frames_well_formed(base_generation, fs),
        torn_tail_of(base_generation, tail, next),
        seen && fs.len() > 0 ==> fs[0].lsn > last_lsn,
    ensures
        spec_replay_from(base_generation, log, off, seen, last_lsn, last_txn, acc) == Ok::<
            ReplayView,
            StorageError,
        >(
            ReplayView {
                frames: acc + fs,
                valid_len: off + frames_bytes(fs).len(),
                last_lsn: last_lsn_after(fs, last_lsn),
                last_txn: last_txn_after(fs, last_txn),
            },
        ),
    decreases fs.len(),
{
    if fs.len() == 0 {
        assert(acc + fs =~= acc);
        if tail.len() > 0 {
            lemma_parse_partial(base_generation, next, tail, seen, last_lsn);
        }
    } else {
        let f = fs[0];
        let rest_fs = fs.drop_first();
        let len = record_len(f.ops.len(), f.blob.len());
        lemma_frame_layout(f);
        lemma_parse_full(base_generation, f, frames_bytes(rest_fs) + tail, seen, last_lsn);
        assert(frames_bytes(fs) + tail =~= frame_bytes(f) + (frames_bytes(rest_fs) + tail));
        assert(log.subrange((off + len) as int, log.len() as int) =~= frames_bytes(rest_fs)
            + tail) by {
            assert(log.subrange((off + len) as int, log.len() as int) =~= log.subrange(
                off as int,
                log.len() as int,
            ).subrange(len, log.len() - off));
        }
        assert(frames_well_formed(base_generation, rest_fs)) by {
            assert forall|i: int| 0 <= i < rest_fs.len() implies frame_encodable(
                base_generation,
                #[trigger] rest_fs[i],
            ) by {
                assert(rest_fs[i] == fs[i + 1]);
            }
            assert forall|i: int, j: int| 0 <= i < j < rest_fs.len() implies #[trigger] rest_fs[i].lsn
                < #[trigger] rest_fs[j].lsn by {
                assert(rest_fs[i] == fs[i + 1]);
                assert(rest_fs[j] == fs[j + 1]);
            }
        }
        if rest_fs.len() > 0 {
            assert(rest_fs[0] == fs[1]);
        }
        lemma_replay_frames(
            base_generation,
            log,
            (off + len) as nat,
            rest_fs,
            tail,
            next,
            true,
            f.lsn,
            f.txn_id,
            acc.push(f),
        );
        assert(acc.push(f) + rest_fs =~= acc + fs);
        if rest_fs.len() > 0 {
            assert(rest_fs.last() == fs.last());
        }
    }
}

/// Encoding a run of commits with strictly ascending LSNs, concatenating the
/// records, and cutting the buffer anywhere recovers exactly the records that
/// lie wholly before the cut: `valid_len` is their total length and the
/// recovered frames are those commits, never an error.
pub proof fn lemma_replay_recovers_valid_prefix(
    base_generation: u64,
    fs: Seq<FrameView>,
    tail: Seq<u8>,
    next: FrameView,
)
    requires
        frames_well_formed(base_generation, fs),
        torn_tail_of(base_generation, tail, next),
    ensures
        spec_replay(base_generation, frames_bytes(fs) + tail) == Ok::<ReplayView, StorageError>(
            ReplayView {
                frames: fs,
                valid_len: frames_bytes(fs).len(),
                last_lsn: last_lsn_after(fs, 0),
                last_txn: last_txn_after(fs, 0),
            },
        ),
{
    let log = frames_bytes(fs) + tail;
    assert(log.subrange(0, log.len() as int) =~= log);
    lemma_replay_frames(base_generation, log, 0, fs, tail, next, false, 0, 0, Seq::empty());
    assert(Seq::<FrameView>::empty() + fs =~= fs);
}


/// Replay from a point where the recovered LSNs ascend and the last one is
/// the one remembered keeps them ascending.
proof fn lemma_replay_from_ascending(
    base_generation: u64,
    log: Seq<u8>,
    offset: nat,
    seen: bool,
    last_lsn: u64,
    last_txn: u64,
    frames: Seq<FrameView>,
)
    requires
        forall|i: int, j: int| 0 <= i < j < frames.len() ==> frames[i].lsn < frames[j].lsn,
        frames.len() > 0 ==> seen && frames.last().lsn == last_lsn,
    ensures
        spec_replay_from(base_generation, log, offset, seen, last_lsn, last_txn, frames) matches Ok(v) ==> forall|
            i: int,
            j: int,
        | 0 <= i < j < v.frames.len() ==> v.frames[i].lsn < v.frames[j].lsn,
    decreases log.len() - offset,
{
    if offset < log.len() {
        let rem = log.subrange(offset as int, log.len() as int);
        match spec_parse_record(base_generation, rem, seen, last_lsn) {
            ParseStep::Frame(frame, len) => {
                if len > 0 {
                    assert(!(seen && frame.lsn <= last_lsn));
                    let next = frames.push(frame);
                    assert forall|i: int, j: int| 0 <= i < j < next.len() implies next[i].lsn < next[j].lsn by {
                        if j == frames.len() {
                            assert(next[i] == frames[i]);
                            if i < frames.len() - 1 {
                                assert(frames[i].lsn < frames[frames.len() - 1].lsn);
                            }
                        } else {
                            assert(next[i] == frames[i] && next[j] == frames[j]);
                        }
                    }
                    lemma_replay_from_ascending(
                        base_generation,
                        log,
                        offset + len,
                        true,
                        frame.lsn,
                        frame.txn_id,
                        next,
                    );
                }
            },
            _ => {},
        }
    }
}

/// Replay only ever recovers frames in strictly ascending LSN order: a
/// well-checksummed record whose LSN does not exceed the one before it is
/// never accepted, and the reported last LSN is the last frame's.
pub proof fn lemma_replay_lsns_ascending(base_generation: u64, log: Seq<u8>)
    ensures
        spec_replay(base_generation, log) matches Ok(v) ==> {
            &&& forall|i: int, j: int| 0 <= i < j < v.frames.len() ==> v.frames[i].lsn < v.frames[j].lsn
            &&& v.frames.len() > 0 ==> v.last_lsn == v.frames.last().lsn
        },
{
    lemma_replay_from_ascending(base_generation, log, 0, false, 0, 0, Seq::empty());
    lemma_replay_from_last(base_generation, log, 0, false, 0, 0, Seq::empty());
}

/// Replay reports as last LSN that of the last recovered frame.
proof fn lemma_replay_from_last(
    base_generation: u64,
    log: Seq<u8>,
    offset: nat,
    seen: bool,
    last_lsn: u64,
    last_txn: u64,
    frames: Seq<FrameView>,
)
    requires
        frames.len() > 0 ==> frames.last().lsn == last_lsn,
    ensures
        spec_replay_from(base_generation, log, offset, seen, last_lsn, last_txn, frames) matches Ok(v) ==> (
        v.frames.len() > 0 ==> v.last_lsn == v.frames.last().lsn),
    decreases log.len() - offset,
{
    if offset < log.len() {
        let rem = log.subrange(offset as int, log.len() as int);
        match spec_parse_record(base_generation, rem, seen, last_lsn) {
            ParseStep::Frame(frame, len) => {
                if len > 0 {
                    lemma_replay_from_last(
                        base_generation,
                        log,
                        offset + len,
                        true,
                        frame.lsn,
                        frame.txn_id,
                        frames.push(frame),
                    );
                }
            },
            _ => {},
        }
    }
}

/// The 64 bytes of a superblock with its fields in declaration order and the
/// given checksum word.
pub open spec fn superblock_bytes(sb: SuperblockRecord, crc: u32) -> Seq<u8> {
    superblock_prefix(sb) + le32(crc) + le32(sb.pad)
}

/// The 56 superblock bytes the checksum covers.
pub open spec fn superblock_prefix(sb: SuperblockRecord) -> Seq<u8> {
    sb.magic@ + le64(sb.base_generation) + le64(sb.checkpoint_lsn) + le64(sb.log_byte_offset)
        + le64(sb.commit_seq) + le64(sb.transaction_id) + le32(sb.format_version) + le32(sb.flags)
}

/// The superblock stored in 64 bytes `s`.
pub open spec fn spec_decode_superblock_fields(s: Seq<u8>) -> SuperblockRecord {
    SuperblockRecord {
        magic: [s[0], s[1], s[2], s[3], s[4], s[5], s[6], s[7]],
        base_generation: u64_at(s, 8),
        checkpoint_lsn: u64_at(s, 16),
        log_byte_offset: u64_at(s, 24),
        commit_seq: u64_at(s, 32),
        transaction_id: u64_at(s, 40),
        format_version: u32_at(s, 48),
        flags: u32_at(s, 52),
        crc32c: u32_at(s, 56),
        pad: u32_at(s, 60),
    }
}

/// The outcome of verifying and decoding superblock bytes.
pub open spec fn spec_decode_superblock(s: Seq<u8>) -> Result<SuperblockRecord, StorageError> {
    let sb = spec_decode_superblock_fields(s);
    if s.len() != 64 {
        Err(StorageError::InvalidStore { reason: "superblock size mismatch" })
    } else if sb.magic != SUPERBLOCK_MAGIC {
        Err(StorageError::InvalidStore { reason: "superblock magic mismatch" })
    } else if sb.crc32c != spec_checksum(s.subrange(0, 56)) {
        Err(StorageError::InvalidStore { reason: "superblock checksum mismatch" })
    } else if sb.format_version != OXGDB_FORMAT_VERSION {
        Err(StorageError::InvalidStore { reason: "superblock format version unsupported" })
    } else if sb.flags != 0 || sb.pad != 0 {
        Err(StorageError::InvalidStore { reason: "superblock reserved word not zero" })
    } else {
        Ok(sb)
    }
}

/// Encodes a superblock, computing and stamping its checksum over the 56
/// bytes before the checksum field (the supplied `crc32c` is ignored).
pub fn encode_superblock(sb: &SuperblockRecord) -> (bytes: Vec<u8>)
    ensures
        bytes@ == superblock_bytes(*sb, spec_checksum(superblock_prefix(*sb))),
{
    let mut out: Vec<u8> = Vec::new();
    let mut i: usize = 0;
    while i < 8
        invariant
            i <= 8,
            out@ == sb.magic@.subrange(0, i as int),
        decreases 8 - i,
    {
        out.push(sb.magic[i]);
        proof {
            assert(out@ =~= sb.magic@.subrange(0, i as int + 1));
        }
        i = i + 1;
    }
    proof {
        assert(sb.magic@.subrange(0, 8) =~= sb.magic@);
    }
    push_u64(&mut out, sb.base_generation);
    push_u64(&mut out, sb.checkpoint_lsn);
    push_u64(&mut out, sb.log_byte_offset);
    push_u64(&mut out, sb.commit_seq);
    push_u64(&mut out, sb.transaction_id);
    push_u32(&mut out, sb.format_version);
    push_u32(&mut out, sb.flags);
    let crc = checksum(out.as_slice());
    push_u32(&mut out, crc);
    push_u32(&mut out, sb.pad);
    out
}

/// Verifies and decodes superblock bytes: size, magic, checksum, format
/// version, and the reserved words are each checked, in that order.
pub fn decode_superblock(bytes: &[u8]) -> (r: Result<SuperblockRecord, StorageError>)
    ensures
        r == spec_decode_superblock(bytes@),
{
    if bytes.len() != 64 {
        return Err(StorageError::invalid_store("superblock size mismatch"));
    }
    let sb = SuperblockRecord {
        magic: [bytes[0], bytes[1], bytes[2], bytes[3], bytes[4], bytes[5], bytes[6], bytes[7]],
        base_generation: read_u64_at(bytes, 8),
        checkpoint_lsn: read_u64_at(bytes, 16),
        log_byte_offset: read_u64_at(bytes, 24),
        commit_seq: read_u64_at(bytes, 32),
        transaction_id: read_u64_at(bytes, 40),
        format_version: read_u32_at(bytes, 48),
        flags: read_u32_at(bytes, 52),
        crc32c: read_u32_at(bytes, 56),
        pad: read_u32_at(bytes, 60),
    };
    let magic_ok = sb.magic[0] == SUPERBLOCK_MAGIC[0] && sb.magic[1] == SUPERBLOCK_MAGIC[1]
        && sb.magic[2] == SUPERBLOCK_MAGIC[2] && sb.magic[3] == SUPERBLOCK_MAGIC[3]
        && sb.magic[4] == SUPERBLOCK_MAGIC[4] && sb.magic[5] == SUPERBLOCK_MAGIC[5]
        && sb.magic[6] == SUPERBLOCK_MAGIC[6] && sb.magic[7] == SUPERBLOCK_MAGIC[7];
    proof {
        if magic_ok {
            assert(sb.magic@ =~= SUPERBLOCK_MAGIC@);
        } else {
            assert(sb.magic@ != SUPERBLOCK_MAGIC@);
        }
    }
    if !magic_ok {
        return Err(StorageError::invalid_store("superblock magic mismatch"));
    }
    let expected = checksum(slice_subrange(bytes, 0, 56));
    if sb.crc32c != expected {
        return Err(StorageError::invalid_store("superblock checksum mismatch"));
    }
    if sb.format_version != OXGDB_FORMAT_VERSION {
        return Err(StorageError::invalid_store("superblock format version unsupported"));
    }
    if sb.flags != 0 || sb.pad != 0 {
        return Err(StorageError::invalid_store("superblock reserved word not zero"));
    }
    Ok(sb)
}

/// A superblock with the current magic and format version and zero reserved
/// words survives encoding then decoding, with its checksum field replaced by
/// the checksum the encoder stamped.
pub proof fn lemma_superblock_roundtrip(sb: SuperblockRecord)
    requires
        sb.magic == SUPERBLOCK_MAGIC,
        sb.format_version == OXGDB_FORMAT_VERSION,
        sb.flags == 0,
        sb.pad == 0,
    ensures
        spec_decode_superblock(superblock_bytes(sb, spec_checksum(superblock_prefix(sb))))
            == Ok::<SuperblockRecord, StorageError>(
            SuperblockRecord { crc32c: spec_checksum(superblock_prefix(sb)), ..sb },
        ),
{
    let crc = spec_checksum(superblock_prefix(sb));
    let m = sb.magic@;
    let a = le64(sb.base_generation);
    let b = le64(sb.checkpoint_lsn);
    let c = le64(sb.log_byte_offset);
    let d = le64(sb.commit_seq);
    let e = le64(sb.transaction_id);
    let v = le32(sb.format_version);
    let fl = le32(sb.flags);
    let k = le32(crc);
    let p = le32(sb.pad);
    let s = m + a + b + c + d + e + v + fl + k + p;
    assert(s == superblock_bytes(sb, crc));
    lemma_le_lens(sb.format_version, sb.base_generation);
    lemma_le_lens(sb.flags, sb.checkpoint_lsn);
    lemma_le_lens(crc, sb.log_byte_offset);
    lemma_le_lens(sb.pad, sb.commit_seq);
    lemma_le_lens(0, sb.transaction_id);
    assert(m.len() == 8);
    lemma_le64_read(m, sb.base_generation, b + c + d + e + v + fl + k + p);
    assert(m + a + (b + c + d + e + v + fl + k + p) =~= s);
    lemma_le64_read(m + a, sb.checkpoint_lsn, c + d + e + v + fl + k + p);
    assert(m + a + b + (c + d + e + v + fl + k + p) =~= s);
    lemma_le64_read(m + a + b, sb.log_byte_offset, d + e + v + fl + k + p);
    assert(m + a + b + c + (d + e + v + fl + k + p) =~= s);
    lemma_le64_read(m + a + b + c, sb.commit_seq, e + v + fl + k + p);
    assert(m + a + b + c + d + (e + v + fl + k + p) =~= s);
    lemma_le64_read(m + a + b + c + d, sb.transaction_id, v + fl + k + p);
    assert(m + a + b + c + d + e + (v + fl + k + p) =~= s);
    lemma_le32_read(m + a + b + c + d + e, sb.format_version, fl + k + p);
    assert(m + a + b + c + d + e + v + (fl + k + p) =~= s);
    lemma_le32_read(m + a + b + c + d + e + v, sb.flags, k + p);
    assert(m + a + b + c + d + e + v + fl + (k + p) =~= s);
    lemma_le32_read(m + a + b + c + d + e + v + fl, crc, p);
    lemma_le32_read(m + a + b + c + d + e + v + fl + k, sb.pad, Seq::empty());
    assert(m + a + b + c + d + e + v + fl + k + p + Seq::<u8>::empty() =~= s);
    assert(s.subrange(0, 56) =~= superblock_prefix(sb));
    let r = spec_decode_superblock_fields(s);
    assert(r.magic@ =~= sb.magic@) by {
        assert(s[0] == m[0] && s[1] == m[1] && s[2] == m[2] && s[3] == m[3]);
        assert(s[4] == m[4] && s[5] == m[5] && s[6] == m[6] && s[7] == m[7]);
    }
    assert(r.magic == sb.magic);
}

} // verus!
