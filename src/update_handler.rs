use vstd::prelude::*;

use crate::payload::{Payload, PayloadKeyType};
use crate::segment::{SKIP_VERSION_CHECK, Segment, SegmentModel};
use crate::types::{OperationResult, PointIdType, SeqNumberType, VectorElementType};

verus! {

/// A mutation of one point, as written to the operation log.
#[derive(Debug)]
pub enum Operation {
    UpsertPoint { point_id: PointIdType, vector: Vec<VectorElementType> },
    SetFullPayload { point_id: PointIdType, payload: Payload },
    DeletePayloadKey { point_id: PointIdType, key: PayloadKeyType },
    ClearPayload { point_id: PointIdType },
    DeletePoint { point_id: PointIdType },
}

/// One record of the operation log: an operation and its version.
#[derive(Debug)]
pub struct LogEntry {
    pub op_num: SeqNumberType,
    pub operation: Operation,
}

impl Operation {
    pub open spec fn point(&self) -> PointIdType {
        match self {
            Operation::UpsertPoint { point_id, .. } => *point_id,
            Operation::SetFullPayload { point_id, .. } => *point_id,
            Operation::DeletePayloadKey { point_id, .. } => *point_id,
            Operation::ClearPayload { point_id } => *point_id,
            Operation::DeletePoint { point_id } => *point_id,
        }
    }
}

/// The segment after one log entry.
pub open spec fn apply_entry(m: SegmentModel, e: LogEntry) -> SegmentModel {
    match e.operation {
        Operation::UpsertPoint { point_id, vector } => m.upsert(e.op_num, point_id, vector@),
        Operation::SetFullPayload { point_id, payload } => m.set_full_payload(e.op_num, point_id, payload@),
        Operation::DeletePayloadKey { point_id, key } => m.delete_payload_key(e.op_num, point_id, key@),
        Operation::ClearPayload { point_id } => m.clear_payload(e.op_num, point_id),
        Operation::DeletePoint { point_id } => m.delete_point(e.op_num, point_id),
    }
}

/// The segment after a whole log, applied in order.
pub open spec fn apply_log(m: SegmentModel, log: Seq<LogEntry>) -> SegmentModel
    decreases log.len(),
{
    if log.len() == 0 {
        m
    } else {
        apply_entry(apply_log(m, log.drop_last()), log.last())
    }
}

/// The entry changes nothing on this segment, now or after later entries
/// of no lower version: its version is not newer than the point's, or its
/// vector has the wrong dimension, or it needs a point that is not there.
pub open spec fn settled(m: SegmentModel, e: LogEntry) -> bool {
    let id = e.operation.point();
    ||| m.is_stale(e.op_num, id)
    ||| (e.operation matches Operation::UpsertPoint { vector, .. } && vector@.len() != m.dim)
    ||| (!(e.operation is UpsertPoint) && !m.ids.contains_key(id))
}

proof fn lemma_settled_is_noop(m: SegmentModel, e: LogEntry)
    requires
        settled(m, e),
    ensures
        apply_entry(m, e) == m,
{
}

/// After an entry, either nothing changed, or the point's version is the
/// entry's and no other point's presence or version moved.
proof fn lemma_entry_effect(m: SegmentModel, e: LogEntry)
    requires
        e.op_num != SKIP_VERSION_CHECK,
    ensures
        apply_entry(m, e) == m || (apply_entry(m, e).versions == m.versions.insert(e.operation.point(), e.op_num)
            && forall|id: PointIdType|
            id != e.operation.point() ==> (#[trigger] apply_entry(m, e).ids.contains_key(id)
                == m.ids.contains_key(id))),
        apply_entry(m, e).dim == m.dim,
        settled(apply_entry(m, e), e),
{
    let n = apply_entry(m, e);
    let id = e.operation.point();
    if n != m {
        assert(n.versions == m.versions.insert(id, e.op_num));
        assert(n.is_stale(e.op_num, id));
    }
}

proof fn lemma_settled_kept(m: SegmentModel, earlier: LogEntry, later: LogEntry)
    requires
        settled(m, earlier),
        earlier.op_num <= later.op_num,
        later.op_num != SKIP_VERSION_CHECK,
    ensures
        settled(apply_entry(m, later), earlier),
{
    lemma_entry_effect(m, later);
    let n = apply_entry(m, later);
    let id = earlier.operation.point();
    if n != m && id == later.operation.point() {
        assert(n.versions[id] == later.op_num);
        assert(n.is_stale(earlier.op_num, id));
    }
}

pub open spec fn versions_ordered(log: Seq<LogEntry>) -> bool {
    &&& forall|i: int| 0 <= i < log.len() ==> (#[trigger] log[i]).op_num != SKIP_VERSION_CHECK
    &&& forall|i: int, j: int| 0 <= i <= j < log.len() ==> (#[trigger] log[i]).op_num <= (#[trigger] log[j]).op_num
}

proof fn lemma_log_settles(m: SegmentModel, log: Seq<LogEntry>, n: int)
    requires
        versions_ordered(log),
        0 <= n <= log.len(),
    ensures
        forall|k: int| 0 <= k < n ==> settled(apply_log(m, log.take(n)), #[trigger] log[k]),
    decreases n,
{
    if n > 0 {
        lemma_log_settles(m, log, n - 1);
        let before = apply_log(m, log.take(n - 1));
        assert(log.take(n).drop_last() =~= log.take(n - 1));
        assert(apply_log(m, log.take(n)) == apply_entry(before, log[n - 1]));
        assert forall|k: int| 0 <= k < n implies settled(apply_log(m, log.take(n)), #[trigger] log[k]) by {
            if k == n - 1 {
                lemma_entry_effect(before, log[k]);
            } else {
                lemma_settled_kept(before, log[k], log[n - 1]);
            }
        }
    }
}

proof fn lemma_settled_log_is_noop(m: SegmentModel, log: Seq<LogEntry>, n: int)
    requires
        0 <= n <= log.len(),
        forall|k: int| 0 <= k < log.len() ==> settled(m, #[trigger] log[k]),
    ensures
        apply_log(m, log.take(n)) == m,
    decreases n,
{
    if n > 0 {
        lemma_settled_log_is_noop(m, log, n - 1);
        assert(log.take(n).drop_last() =~= log.take(n - 1));
        lemma_settled_is_noop(m, log[n - 1]);
    }
}

/// Replaying a log whose versions never decrease, on the state that the log
/// itself produced, changes nothing: recovery may re-read entries that were
/// already applied.
pub proof fn lemma_replay_idempotent(m: SegmentModel, log: Seq<LogEntry>)
    requires
        versions_ordered(log),
    ensures
        apply_log(apply_log(m, log), log) == apply_log(m, log),
{
    lemma_log_settles(m, log, log.len() as int);
    assert(log.take(log.len() as int) =~= log);
    lemma_settled_log_is_noop(apply_log(m, log), log, log.len() as int);
}

impl Segment {
    /// Applies one log entry through the versioned operations.
    pub fn apply_entry(&mut self, entry: &LogEntry) -> (r: OperationResult<bool>)
        requires
            old(self).wf(),
        ensures
            final(self).wf(),
            final(self)@.wf(),
            final(self)@ == apply_entry(old(self)@, *entry),
    {
        match &entry.operation {
            Operation::UpsertPoint { point_id, vector } => self.upsert_point(entry.op_num, *point_id, vector),
            Operation::SetFullPayload { point_id, payload } => {
                self.set_full_payload(entry.op_num, *point_id, payload.clone_payload())
            },
            Operation::DeletePayloadKey { point_id, key } => self.delete_payload_key(entry.op_num, *point_id, key),
            Operation::ClearPayload { point_id } => self.clear_payload(entry.op_num, *point_id),
            Operation::DeletePoint { point_id } => self.delete_point(entry.op_num, *point_id),
        }
    }

    /// Applies a log in order. An entry that fails (a vector of the wrong
    /// dimension, an unknown point) leaves the segment as it was and the
    /// replay goes on; the number of entries that changed the segment is
    /// returned.
    pub fn replay(&mut self, log: &Vec<LogEntry>) -> (r: usize)
        requires
            old(self).wf(),
        ensures
            final(self).wf(),
            final(self)@.wf(),
            final(self)@ == apply_log(old(self)@, log@),
            r <= log@.len(),
    {
        let mut applied: usize = 0;
        let mut i: usize = 0;
        while i < log.len()
            invariant
                self.wf(),
                i <= log@.len(),
                applied <= i,
                self@ == apply_log(old(self)@, log@.take(i as int)),
            decreases log.len() - i,
        {
            proof {
                assert(log@.take(i + 1).drop_last() =~= log@.take(i as int));
            }
            match self.apply_entry(&log[i]) {
                Ok(true) => {
                    applied += 1;
                },
                _ => {},
            }
            i += 1;
        }
        proof {
            assert(log@.take(i as int) =~= log@);
            self.lemma_view_wf();
        }
        applied
    }
}

} // verus!
