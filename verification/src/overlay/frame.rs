//! What replaying a committed frame gives back: the writer's entries, its
//! catalog, and its watermark.
//!
//! A writer's mutators each log at most one op and only ever append to the
//! blob; replaying the frame's ops in order, against the final blob, on a
//! writer that starts where the original one did, succeeds at every op and
//! rebuilds the writer.
use crate::error::DbError;
use crate::overlay::log::{run_in, run_of, op_with, watermark_words};
use crate::overlay::{
    blob_text, catalog_replayed, is_catalog_kind, replay_reproduces, replayed, replayed_value, tag_type,
    watermark_of, BaseRecords, WriteOverlay,
};
use crate::value::PropertyType;
use crate::wire::{self, MutationOp};
use vstd::prelude::*;

verus! {

/// Whether `new` starts with the bytes of `old`.
pub open spec fn extends(old: Seq<u8>, new: Seq<u8>) -> bool {
    &&& old.len() <= new.len()
    &&& forall|i: int| 0 <= i < old.len() ==> #[trigger] new[i] == old[i]
}

/// The effect of one mutator call on what replay sees: the blob only grows,
/// and either nothing was logged and the entries and catalog stand, or
/// exactly one op was appended and replaying it reproduces the call.
pub open spec fn replay_step(old: WriteOverlay, new: WriteOverlay, base: BaseRecords) -> bool {
    &&& extends(old.log_blob(), new.log_blob())
    &&& {
        ||| new.log_ops() == old.log_ops() && new.same_delta(&old) && new.catalog_v()@ == old.catalog_v()@
        ||| new.log_ops().len() == old.log_ops().len() + 1 && new.log_ops().drop_last() == old.log_ops()
            && replay_reproduces(old, new, base)
    }
}

/// Whether every blob run op `op` reads lies inside `blob`: the text of a
/// text property, the name of a registration, and the body of a
/// definition.
pub open spec fn reads_within(op: MutationOp, blob: Seq<u8>) -> bool {
    let kind = op.op_kind;
    let w = op.payload@;
    &&& kind == wire::OP_SET_PROPERTY && tag_type(op.flags >> 16) == Some(PropertyType::Text) ==> run_in(
        blob,
        w[3],
        w[4],
    )
    &&& is_catalog_kind(kind) ==> run_in(blob, w[1], w[2])
    &&& is_catalog_kind(kind) && kind > wire::OP_CATALOG_REGISTER_PROPERTY_KEY ==> run_in(blob, w[3], w[4])
}

/// A run inside `blob` reads the same from any extension of it.
proof fn lemma_run_extends(blob: Seq<u8>, longer: Seq<u8>, offset: u64, len: u64)
    requires
        extends(blob, longer),
        run_in(blob, offset, len),
    ensures
        run_in(longer, offset, len),
        run_of(longer, offset, len) == run_of(blob, offset, len),
{
    assert(run_of(longer, offset, len) =~= run_of(blob, offset, len));
}

/// Replaying an op whose runs lie inside `blob` does the same with any
/// extension of `blob`.
proof fn lemma_replayed_extends(
    v0: WriteOverlay,
    v1: WriteOverlay,
    base: BaseRecords,
    op: MutationOp,
    blob: Seq<u8>,
    longer: Seq<u8>,
    r: Result<(), DbError>,
)
    requires
        extends(blob, longer),
        reads_within(op, blob),
    ensures
        replayed(v0, v1, base, op, longer, r) == replayed(v0, v1, base, op, blob, r),
{
    let kind = op.op_kind;
    let w = op.payload@;
    if kind == wire::OP_SET_PROPERTY {
        if tag_type(op.flags >> 16) == Some(PropertyType::Text) {
            lemma_run_extends(blob, longer, w[3], w[4]);
        }
        assert(replayed_value(op.flags >> 16, w, longer) == replayed_value(op.flags >> 16, w, blob));
    }
    if is_catalog_kind(kind) {
        lemma_run_extends(blob, longer, w[1], w[2]);
        assert(blob_text(longer, w[1], w[2]) == blob_text(blob, w[1], w[2]));
        if kind > wire::OP_CATALOG_REGISTER_PROPERTY_KEY {
            lemma_run_extends(blob, longer, w[3], w[4]);
        }
        assert forall|c: crate::catalog::CatalogView, name: Seq<char>| #[trigger]
            catalog_replayed(c, kind, op.flags, w, name, longer) == catalog_replayed(
                c,
                kind,
                op.flags,
                w,
                name,
                blob,
            ) by {}
    }
}

/// An op whose replay reproduces the mutation that logged it reads only
/// runs of the blob as it stood after that mutation: were a run missing,
/// replay on the writer itself would fail.
proof fn lemma_reproduces_reads_within(old: WriteOverlay, new: WriteOverlay, base: BaseRecords)
    requires
        replay_reproduces(old, new, base),
    ensures
        reads_within(new.log_ops().last(), new.log_blob()),
{
    let op = new.log_ops().last();
    let blob = new.log_blob();
    let kind = op.op_kind;
    let w = op.payload@;
    let fail = Err::<(), DbError>(DbError::LogCorrupt { lsn: 0, reason: "" });
    if kind == wire::OP_SET_PROPERTY && tag_type(op.flags >> 16) == Some(PropertyType::Text) && !run_in(
        blob,
        w[3],
        w[4],
    ) {
        assert(replayed(old, old, base, op, blob, fail));
    }
    if is_catalog_kind(kind) && !run_in(blob, w[1], w[2]) {
        assert(replayed(old, old, base, op, blob, fail));
    }
    if is_catalog_kind(kind) && kind > wire::OP_CATALOG_REGISTER_PROPERTY_KEY && run_in(blob, w[1], w[2])
        && !run_in(blob, w[3], w[4]) {
        if blob_text(blob, w[1], w[2]) is Some {
            assert(catalog_replayed(old.catalog_v()@, kind, op.flags, w, blob_text(blob, w[1], w[2])->0, blob)
                is None);
        }
        assert(replayed(old, old, base, op, blob, fail));
    }
}

/// Whether writer `a`'s log and blob are prefixes of writer `b`'s.
pub open spec fn logged_before(a: WriteOverlay, b: WriteOverlay) -> bool {
    &&& extends(a.log_blob(), b.log_blob())
    &&& a.log_ops().len() <= b.log_ops().len()
    &&& b.log_ops().take(a.log_ops().len() as int) == a.log_ops()
}

/// Along a run of mutator calls, every earlier log and blob is a prefix of
/// every later one.
proof fn lemma_trace_prefixes(trace: Seq<WriteOverlay>, base: BaseRecords, k: int)
    requires
        0 <= k < trace.len(),
        forall|i: int| 0 <= i < trace.len() - 1 ==> #[trigger] replay_step(trace[i], trace[i + 1], base),
    ensures
        forall|j: int|
            0 <= j <= k ==> #[trigger] logged_before(trace[j], trace[k]),
    decreases k,
{
    if k > 0 {
        lemma_trace_prefixes(trace, base, k - 1);
        let i = k - 1;
        assert(replay_step(trace[i], trace[i + 1], base));
    }
    assert forall|j: int| 0 <= j <= k implies #[trigger] logged_before(trace[j], trace[k]) by {
        let cur = trace[k];
        if j < k {
            let prev = trace[k - 1];
            let a = trace[j];
            assert(logged_before(a, prev));
            assert(cur.log_blob().subrange(0, a.log_blob().len() as int) =~= prev.log_blob().subrange(
                0,
                a.log_blob().len() as int,
            ));
            if cur.log_ops() != prev.log_ops() {
                assert(cur.log_ops().take(a.log_ops().len() as int) =~= prev.log_ops().take(
                    a.log_ops().len() as int,
                ));
            }
        } else {
            assert(cur.log_ops().take(cur.log_ops().len() as int) =~= cur.log_ops());
            assert(cur.log_blob().subrange(0, cur.log_blob().len() as int) =~= cur.log_blob());
        }
    }
}

/// Replaying the frame's first ops, as many as writer `trace[k]` had
/// logged, rebuilds that writer's entries and catalog, each op succeeding.
proof fn lemma_replay_prefix(
    trace: Seq<WriteOverlay>,
    base: BaseRecords,
    frame: Seq<MutationOp>,
    blob: Seq<u8>,
    states: Seq<WriteOverlay>,
    results: Seq<Result<(), DbError>>,
    k: int,
)
    requires
        0 <= k < trace.len(),
        trace[0].log_ops().len() == 0,
        forall|i: int| 0 <= i < trace.len() - 1 ==> #[trigger] replay_step(trace[i], trace[i + 1], base),
        frame.len() == trace.last().log_ops().len() + 1,
        frame.drop_last() == trace.last().log_ops(),
        blob == trace.last().log_blob(),
        states.len() == frame.len() + 1,
        results.len() == frame.len(),
        states[0].same_delta(&trace[0]),
        states[0].catalog_v()@ == trace[0].catalog_v()@,
        forall|i: int|
            0 <= i < frame.len() ==> #[trigger] replayed(states[i], states[i + 1], base, frame[i], blob, results[i]),
    ensures
        trace[k].log_ops().len() < frame.len(),
        states[trace[k].log_ops().len() as int].same_delta(&trace[k]),
        states[trace[k].log_ops().len() as int].catalog_v()@ == trace[k].catalog_v()@,
        forall|i: int| 0 <= i < trace[k].log_ops().len() ==> #[trigger] results[i] is Ok,
    decreases k,
{
    let last = trace.len() - 1;
    lemma_trace_prefixes(trace, base, last);
    assert(logged_before(trace[k], trace[last]));
    if k > 0 {
        lemma_replay_prefix(trace, base, frame, blob, states, results, k - 1);
        let i = k - 1;
        let prev = trace[i];
        let cur = trace[i + 1];
        assert(replay_step(prev, cur, base));
        let n = prev.log_ops().len() as int;
        if cur.log_ops() == prev.log_ops() {
        } else {
            let op = cur.log_ops().last();
            assert(trace[last].log_ops().take(cur.log_ops().len() as int)[n] == trace[last].log_ops()[n]);
            assert(frame[n] == trace[last].log_ops()[n]);
            assert(frame[n] == op);
            lemma_reproduces_reads_within(prev, cur, base);
            lemma_replayed_extends(states[n], states[n + 1], base, op, cur.log_blob(), blob, results[n]);
            assert(replayed(states[n], states[n + 1], base, frame[n], blob, results[n]));
            assert(replayed(states[n], states[n + 1], base, cur.log_ops().last(), cur.log_blob(), results[n]));
        }
    }
}

/// Replaying a committed frame rebuilds the writer that wrote it.
///
/// Let `trace` run from a fresh writer (nothing logged) through a sequence
/// of mutator calls to the writer `trace.last()`, and let `frame` be its
/// frame: the logged ops with the closing watermark op. Replaying the
/// frame's ops in order, with the final blob, against the same base, on
/// writers `states` starting from one that holds the fresh writer's entries
/// and catalog, succeeds at every op, and ends with the writer's entries,
/// its catalog, and its watermark.
pub proof fn lemma_frame_replays(
    trace: Seq<WriteOverlay>,
    base: BaseRecords,
    frame: Seq<MutationOp>,
    blob: Seq<u8>,
    states: Seq<WriteOverlay>,
    results: Seq<Result<(), DbError>>,
)
    requires
        trace.len() >= 1,
        trace[0].log_ops().len() == 0,
        forall|i: int| 0 <= i < trace.len() - 1 ==> #[trigger] replay_step(trace[i], trace[i + 1], base),
        frame.len() == trace.last().log_ops().len() + 1,
        frame.drop_last() == trace.last().log_ops(),
        op_with(frame.last(), wire::OP_NEXT_ID_WATERMARK, 0, watermark_words(trace.last().next_v())),
        blob == trace.last().log_blob(),
        states.len() == frame.len() + 1,
        results.len() == frame.len(),
        states[0].same_delta(&trace[0]),
        states[0].catalog_v()@ == trace[0].catalog_v()@,
        forall|i: int|
            0 <= i < frame.len() ==> #[trigger] replayed(states[i], states[i + 1], base, frame[i], blob, results[i]),
    ensures
        forall|i: int| 0 <= i < frame.len() ==> #[trigger] results[i] is Ok,
        states.last().same_delta(&trace.last()),
        states.last().catalog_v()@ == trace.last().catalog_v()@,
        states.last().next_v() == trace.last().next_v(),
{
    let last = trace.len() - 1;
    let w = trace[last];
    let n = w.log_ops().len() as int;
    lemma_replay_prefix(trace, base, frame, blob, states, results, last);
    assert(frame[n] == frame.last());
    assert(replayed(states[n], states[n + 1], base, frame[n], blob, results[n]));
    assert(watermark_of(frame[n].payload@) == w.next_v());
    assert(states.last() == states[n + 1]);
}

} // verus!
