//! The replayable mutation log a writer accumulates for the WAL.
//!
//! Each entry is a fixed [`MutationOp`]; variable-length names, text, and
//! definition bodies are interned into a byte blob and referenced by
//! `(offset, len)` payload words.
use crate::codec::{le64, push_bytes, push_u64, read_u64_at, u64_at};
use crate::error::DbError;
use crate::state::NextIds;
use crate::wire::{MutationOp, OP_NEXT_ID_WATERMARK};
use vstd::prelude::*;

verus! {

/// The nine payload words of an op whose leading words are `words`; the rest
/// are zero.
pub open spec fn padded(words: Seq<u64>) -> Seq<u64> {
    Seq::new(9, |i: int| if i < words.len() { words[i] } else { 0 })
}

/// The little-endian bytes of a word run.
pub open spec fn words_bytes(words: Seq<u64>) -> Seq<u8>
    decreases words.len(),
{
    if words.len() == 0 {
        Seq::empty()
    } else {
        words_bytes(words.drop_last()) + le64(words.last())
    }
}

/// A word run takes eight bytes per word.
pub proof fn lemma_words_bytes_len(words: Seq<u64>)
    ensures
        words_bytes(words).len() == 8 * words.len(),
    decreases words.len(),
{
    if words.len() > 0 {
        lemma_words_bytes_len(words.drop_last());
        crate::codec::lemma_le_lens(0, words.last());
    }
}

/// Every word of a run reads back from its bytes.
proof fn lemma_words_bytes_read(words: Seq<u64>, i: int)
    requires
        0 <= i < words.len(),
    ensures
        u64_at(words_bytes(words), 8 * i) == words[i],
    decreases words.len(),
{
    let init = words.drop_last();
    lemma_words_bytes_len(init);
    let a = words_bytes(init);
    crate::codec::lemma_le64_read(a, words.last(), Seq::empty());
    assert(a + le64(words.last()) + Seq::<u8>::empty() =~= words_bytes(words));
    if i < words.len() - 1 {
        lemma_words_bytes_read(init, i);
        assert(words_bytes(words).subrange(8 * i, 8 * i + 8) =~= a.subrange(8 * i, 8 * i + 8));
    }
}

/// Reading the words of a run's bytes gives the run back.
pub proof fn lemma_bytes_words_roundtrip(words: Seq<u64>)
    ensures
        bytes_words(words_bytes(words)) == words,
{
    lemma_words_bytes_len(words);
    let b = bytes_words(words_bytes(words));
    assert(b.len() == words.len());
    assert forall|i: int| 0 <= i < words.len() implies b[i] == words[i] by {
        lemma_words_bytes_read(words, i);
    }
    assert(b =~= words);
}

/// The nine allocator values of a watermark, in store-header order.
pub open spec fn watermark_words(next: NextIds) -> Seq<u64> {
    seq![
        next.element.0,
        next.relation.0,
        next.incidence.0,
        next.role.0,
        next.label.0,
        next.relation_type.0,
        next.property_key.0,
        next.projection.0,
        next.index.0,
    ]
}

/// The op with kind `kind`, flags `flags`, and leading payload `words`.
pub open spec fn op_with(o: MutationOp, kind: u32, flags: u32, words: Seq<u64>) -> bool {
    o.op_kind == kind && o.flags == flags && o.payload@ == padded(words)
}

/// `core::str::from_utf8` followed by an owned copy: the standard library
/// documents that it succeeds exactly when the bytes are valid UTF-8, and then
/// yields the characters those bytes encode.
#[verifier::external_body]
pub(crate) fn utf8_string(bytes: &[u8]) -> (r: Option<String>)
    ensures
        r is Some <==> vstd::utf8::valid_utf8(bytes@),
        r matches Some(s) ==> s@ == vstd::utf8::decode_utf8(bytes@),
{
    match core::str::from_utf8(bytes) {
        Ok(text) => Some(text.to_owned()),
        Err(_) => None,
    }
}

/// Whether `(offset, len)` names a byte run inside `blob`.
pub open spec fn run_in(blob: Seq<u8>, offset: u64, len: u64) -> bool {
    offset + len <= blob.len()
}

/// The byte run `(offset, len)` of `blob`.
pub open spec fn run_of(blob: Seq<u8>, offset: u64, len: u64) -> Seq<u8> {
    blob.subrange(offset as int, offset + len)
}

/// What is wrong with the blob run `(offset, len)` of a blob of `blob_len`
/// bytes, or `None` when the run lies inside it: an offset or length past
/// the address range, an end past the address range, or an end past the blob.
pub open spec fn blob_run_fault(blob_len: nat, offset: u64, len: u64) -> Option<&'static str> {
    if offset > usize::MAX {
        Some("blob offset overflow")
    } else if len > usize::MAX {
        Some("blob length overflow")
    } else if offset + len > usize::MAX {
        Some("blob slice overflow")
    } else if offset + len > blob_len {
        Some("blob slice out of bounds")
    } else {
        None
    }
}

/// The error reading the text run `(offset, len)` of `blob` reports at
/// `lsn` when the run is out of place or not UTF-8.
pub open spec fn blob_text_error(blob: Seq<u8>, offset: u64, len: u64, lsn: u64) -> DbError {
    match blob_run_fault(blob.len(), offset, len) {
        Some(reason) => DbError::LogCorrupt { lsn, reason },
        None => DbError::LogCorrupt { lsn, reason: "blob slice is not UTF-8" },
    }
}

/// Reads the `(offset, len)` UTF-8 text run of a replay frame blob. Fails
/// with `LogCorrupt` at `lsn` when the run is out of place or not UTF-8.
pub fn blob_str(blob: &[u8], offset: u64, len: u64, lsn: u64) -> (r: Result<String, DbError>)
    ensures
        blob_run_fault(blob@.len(), offset, len) is None <==> run_in(blob@, offset, len),
        match r {
            Ok(s) => run_in(blob@, offset, len) && vstd::utf8::valid_utf8(run_of(blob@, offset, len))
                && s@ == vstd::utf8::decode_utf8(run_of(blob@, offset, len)),
            Err(e) => e == blob_text_error(blob@, offset, len, lsn) && (!run_in(blob@, offset, len)
                || !vstd::utf8::valid_utf8(run_of(blob@, offset, len))),
        },
{
    let n = blob.len();
    if offset > usize::MAX as u64 {
        return Err(DbError::LogCorrupt { lsn, reason: "blob offset overflow" });
    }
    if len > usize::MAX as u64 {
        return Err(DbError::LogCorrupt { lsn, reason: "blob length overflow" });
    }
    let start = offset as usize;
    let length = len as usize;
    if start > usize::MAX - length {
        return Err(DbError::LogCorrupt { lsn, reason: "blob slice overflow" });
    }
    let end = start + length;
    if end > blob.len() {
        return Err(DbError::LogCorrupt { lsn, reason: "blob slice out of bounds" });
    }
    let bytes = vstd::slice::slice_subrange(blob, start, end);
    match utf8_string(bytes) {
        Some(text) => Ok(text),
        None => Err(DbError::LogCorrupt { lsn, reason: "blob slice is not UTF-8" }),
    }
}

/// The words that a run of little-endian bytes holds.
pub open spec fn bytes_words(bytes: Seq<u8>) -> Seq<u64> {
    Seq::new((bytes.len() / 8) as nat, |i: int| u64_at(bytes, 8 * i))
}

/// What is wrong with the definition run `(offset, len)` of a blob of
/// `blob_len` bytes, or `None` when the run lies inside it.
pub open spec fn def_run_fault(blob_len: nat, offset: u64, len: u64) -> Option<&'static str> {
    if offset > usize::MAX {
        Some("def offset overflow")
    } else if len > usize::MAX {
        Some("def length overflow")
    } else if offset + len > usize::MAX {
        Some("def slice overflow")
    } else if offset + len > blob_len {
        Some("def slice out of bounds")
    } else {
        None
    }
}

/// The error decoding the definition run `(offset, len)` of `blob` reports
/// at `lsn` when the run is out of place or not whole words.
pub open spec fn def_words_error(blob: Seq<u8>, offset: u64, len: u64, lsn: u64) -> DbError {
    match def_run_fault(blob.len(), offset, len) {
        Some(reason) => DbError::LogCorrupt { lsn, reason },
        None => DbError::LogCorrupt { lsn, reason: "def slice is not whole u64 words" },
    }
}

/// Decodes the `(offset, len)` byte run of a definition body into its
/// words. Fails with `LogCorrupt` at `lsn` when the run is out of place or
/// not a whole number of words.
pub fn decode_def_words(blob: &[u8], offset: u64, len: u64, lsn: u64) -> (r: Result<Vec<u64>, DbError>)
    ensures
        def_run_fault(blob@.len(), offset, len) is None <==> run_in(blob@, offset, len),
        match r {
            Ok(words) => run_in(blob@, offset, len) && len % 8 == 0 && words@ == bytes_words(
                run_of(blob@, offset, len),
            ),
            Err(e) => e == def_words_error(blob@, offset, len, lsn) && (!run_in(blob@, offset, len) || len % 8
                != 0),
        },
{
    let n = blob.len();
    if offset > usize::MAX as u64 {
        return Err(DbError::LogCorrupt { lsn, reason: "def offset overflow" });
    }
    if len > usize::MAX as u64 {
        return Err(DbError::LogCorrupt { lsn, reason: "def length overflow" });
    }
    if (offset as usize) > usize::MAX - (len as usize) {
        return Err(DbError::LogCorrupt { lsn, reason: "def slice overflow" });
    }
    if (offset as usize) + (len as usize) > blob.len() {
        return Err(DbError::LogCorrupt { lsn, reason: "def slice out of bounds" });
    }
    if len % 8 != 0 {
        return Err(DbError::LogCorrupt { lsn, reason: "def slice is not whole u64 words" });
    }
    let start = offset as usize;
    let end = (offset + len) as usize;
    let bytes = vstd::slice::slice_subrange(blob, start, end);
    let n = bytes.len();
    let count = n / 8;
    let mut words: Vec<u64> = Vec::new();
    let mut i: usize = 0;
    while i < count
        invariant
            n == bytes@.len(),
            count == n / 8,
            i <= count,
            words@ == Seq::new(i as nat, |j: int| u64_at(bytes@, 8 * j)),
        decreases count - i,
    {
        proof {
            assert(8 * i + 8 <= n) by (nonlinear_arith)
                requires
                    i < count,
                    count == n / 8,
            ;
        }
        let w = read_u64_at(bytes, 8 * i);
        words.push(w);
        i = i + 1;
        proof {
            assert(words@ =~= Seq::new(i as nat, |j: int| u64_at(bytes@, 8 * j)));
        }
    }
    Ok(words)
}

/// The ordered, replayable log of every mutation a writer applied.
#[derive(Clone, Debug)]
pub struct MutationLog {
    /// Mutation ops in application order.
    ops: Vec<MutationOp>,
    /// Interned names, text, and definition bodies.
    blob: Vec<u8>,
}

impl MutationLog {
    /// The logged ops, in order.
    pub closed spec fn ops_v(&self) -> Seq<MutationOp> {
        self.ops@
    }

    /// The interned bytes.
    pub closed spec fn blob_v(&self) -> Seq<u8> {
        self.blob@
    }

    /// An empty log.
    pub fn new() -> (l: Self)
        ensures
            l.ops_v() == Seq::<MutationOp>::empty(),
            l.blob_v() == Seq::<u8>::empty(),
    {
        MutationLog { ops: Vec::new(), blob: Vec::new() }
    }

    /// Whether no op has been recorded.
    pub fn is_empty(&self) -> (b: bool)
        ensures
            b == (self.ops_v().len() == 0),
    {
        self.ops.len() == 0
    }

    /// Interns a byte run, returning its `(offset, len)`.
    pub fn intern(&mut self, value: &[u8]) -> (r: (u64, u64))
        ensures
            final(self).blob_v() == old(self).blob_v() + value@,
            final(self).ops_v() == old(self).ops_v(),
            r == (old(self).blob_v().len() as u64, value@.len() as u64),
            final(self).blob_v().len() <= usize::MAX,
    {
        let offset = self.blob.len() as u64;
        push_bytes(&mut self.blob, value);
        let _total = self.blob.len();
        (offset, value.len() as u64)
    }

    /// Interns a word run as little-endian bytes, returning the byte
    /// `(offset, len)` of the run.
    pub fn intern_words(&mut self, words: &[u64]) -> (r: (u64, u64))
        ensures
            final(self).blob_v() == old(self).blob_v() + words_bytes(words@),
            final(self).ops_v() == old(self).ops_v(),
            r == (old(self).blob_v().len() as u64, words_bytes(words@).len() as u64),
            final(self).blob_v().len() <= usize::MAX,
    {
        let start = self.blob.len();
        let ghost base = self.blob@;
        let mut i: usize = 0;
        while i < words.len()
            invariant
                i <= words@.len(),
                self.blob@ == base + words_bytes(words@.take(i as int)),
                self.ops@ == old(self).ops@,
                base == old(self).blob@,
                start == base.len(),
            decreases words@.len() - i,
        {
            push_u64(&mut self.blob, words[i]);
            proof {
                assert(words@.take(i + 1).drop_last() =~= words@.take(i as int));
                assert(self.blob@ =~= base + words_bytes(words@.take(i + 1)));
            }
            i = i + 1;
        }
        proof {
            assert(words@.take(i as int) =~= words@);
        }
        let len = self.blob.len() - start;
        (start as u64, len as u64)
    }

    /// Records one op with the given kind, flags, and leading payload words:
    /// the first nine words are kept, and the remaining payload words are
    /// zero.
    pub fn push(&mut self, op_kind: u32, flags: u32, words: &[u64])
        ensures
            final(self).ops_v().len() == old(self).ops_v().len() + 1,
            final(self).ops_v().drop_last() == old(self).ops_v(),
            op_with(final(self).ops_v().last(), op_kind, flags, words@),
            final(self).blob_v() == old(self).blob_v(),
    {
        let mut payload: [u64; 9] = [0u64; 9];
        let kept: usize = if words.len() < 9 {
            words.len()
        } else {
            9
        };
        let mut i: usize = 0;
        while i < kept
            invariant
                kept <= 9,
                kept <= words@.len(),
                kept == words@.len() || kept == 9,
                i <= kept,
                payload@ == Seq::new(9, |j: int| if j < i { words@[j] } else { 0 }),
            decreases kept - i,
        {
            payload[i] = words[i];
            proof {
                assert(payload@ =~= Seq::new(9, |j: int| if j < i + 1 { words@[j] } else { 0 }));
            }
            i = i + 1;
        }
        proof {
            assert(payload@ =~= padded(words@));
        }
        self.ops.push(MutationOp { op_kind, flags, payload });
        proof {
            assert(self.ops@.drop_last() =~= old(self).ops@);
        }
    }

    /// Appends the nine-value watermark as the final op of a frame.
    pub fn push_watermark(&mut self, next: NextIds)
        ensures
            final(self).ops_v().len() == old(self).ops_v().len() + 1,
            final(self).ops_v().drop_last() == old(self).ops_v(),
            op_with(final(self).ops_v().last(), OP_NEXT_ID_WATERMARK, 0, watermark_words(next)),
            final(self).blob_v() == old(self).blob_v(),
    {
        let words: [u64; 9] = [
            next.element.get(),
            next.relation.get(),
            next.incidence.get(),
            next.role.get(),
            next.label.get(),
            next.relation_type.get(),
            next.property_key.get(),
            next.projection.get(),
            next.index.get(),
        ];
        proof {
            assert(words@ =~= watermark_words(next));
        }
        self.push(OP_NEXT_ID_WATERMARK, 0, &words);
    }

    /// A copy of the log.
    pub fn copy(&self) -> (l: Self)
        ensures
            l.ops_v() == self.ops_v(),
            l.blob_v() == self.blob_v(),
    {
        MutationLog { ops: self.ops.clone(), blob: self.blob.clone() }
    }

    /// A copy of the log as a frame: its ops and its blob.
    pub fn frame(&self) -> (r: (Vec<MutationOp>, Vec<u8>))
        ensures
            r.0@ == self.ops_v(),
            r.1@ == self.blob_v(),
    {
        (self.ops.clone(), self.blob.clone())
    }
}

} // verus!
