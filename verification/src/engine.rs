use vstd::prelude::*;

use crate::event::{is_random_uuid, TraceId};
use crate::scheduler::DeterministicScheduler;
use crate::snapshot::SnapshotManager;
use crate::text::{join_path, path_join, uuid_string, uuid_text};
use crate::trace_log::{appended_frame, LogError, TraceLog};

verus! {

/// The file name of a trace's log.
pub open spec fn trace_log_name(id: TraceId) -> Seq<char> {
    seq!['t', 'r', 'a', 'c', 'e', '_'] + uuid_text(id.0) + seq!['.', 'l', 'o', 'g']
}

/// The directory name of a trace's snapshots.
pub open spec fn snapshot_dir_name(id: TraceId) -> Seq<char> {
    seq!['s', 'n', 'a', 'p', 's', 'h', 'o', 't', 's', '_'] + uuid_text(id.0)
}

/// Main trace engine coordinator
pub struct TraceEngine {
    trace_log: TraceLog,
    snapshot_manager: SnapshotManager,
    scheduler: DeterministicScheduler,
    trace_id: TraceId,
}

impl TraceEngine {
    pub closed spec fn spec_trace_log(&self) -> TraceLog {
        self.trace_log
    }

    pub closed spec fn spec_snapshot_manager(&self) -> SnapshotManager {
        self.snapshot_manager
    }

    pub closed spec fn spec_trace_id(&self) -> TraceId {
        self.trace_id
    }

    /// The path of the log of trace `id` under `trace_dir`.
    pub fn trace_log_path(trace_dir: &str, id: TraceId) -> (r: String)
        ensures
            r@ == path_join(trace_dir@, trace_log_name(id)),
    {
        let mut name = String::from_str("trace_");
        let uuid = uuid_string(id.0);
        name.append(uuid.as_str());
        name.append(".log");
        proof {
            reveal_strlit("trace_");
            reveal_strlit(".log");
            assert(name@ =~= trace_log_name(id));
        }
        join_path(trace_dir, name.as_str())
    }

    /// The path of the snapshot directory of trace `id` under `trace_dir`.
    pub fn snapshot_dir_path(trace_dir: &str, id: TraceId) -> (r: String)
        ensures
            r@ == path_join(trace_dir@, snapshot_dir_name(id)),
    {
        let mut name = String::from_str("snapshots_");
        let uuid = uuid_string(id.0);
        name.append(uuid.as_str());
        proof {
            reveal_strlit("snapshots_");
            assert(name@ =~= snapshot_dir_name(id));
        }
        join_path(trace_dir, name.as_str())
    }

    /// A new engine for a fresh trace under `trace_dir`: a random trace id, an empty log
    /// named after it, and a snapshot manager for its snapshot directory.
    pub fn new(trace_dir: &str, compress: bool, snapshot_interval: u64) -> (r: Self)
        ensures
            is_random_uuid(r.spec_trace_id().0),
            r.spec_trace_log().spec_path() == path_join(trace_dir@, trace_log_name(r.spec_trace_id())),
            r.spec_trace_log().spec_event_count() == 0,
            r.spec_trace_log().spec_compress() == compress,
            r.spec_snapshot_manager().spec_dir() == path_join(trace_dir@, snapshot_dir_name(r.spec_trace_id())),
            r.spec_snapshot_manager().spec_interval() == snapshot_interval,
            r.spec_snapshot_manager().spec_snapshots().len() == 0,
    {
        let trace_id = TraceId::new();
        let trace_log = TraceLog::create(Self::trace_log_path(trace_dir, trace_id), compress);
        let snapshot_manager = SnapshotManager::new(Self::snapshot_dir_path(trace_dir, trace_id), snapshot_interval);
        TraceEngine { trace_log, snapshot_manager, scheduler: DeterministicScheduler::new(), trace_id }
    }

    /// The record to write for an event whose serialized form is `serialized`.
    pub fn prepare_record(&self, serialized: &[u8]) -> (r: Result<Vec<u8>, LogError>)
        ensures
            r is Ok,
            r matches Ok(frame) ==> appended_frame(serialized@, self.spec_trace_log().spec_compress(), frame@),
    {
        self.trace_log.encode_event(serialized)
    }

    /// Counts an event whose record was written: returns its number and whether a snapshot
    /// checkpoint falls on it.
    pub fn commit_record(&mut self) -> (r: (u64, bool))
        requires
            old(self).spec_trace_log().spec_event_count() < u64::MAX,
            old(self).spec_snapshot_manager().spec_interval() > 0,
        ensures
            r.0 == old(self).spec_trace_log().spec_event_count() + 1,
            r.1 == (r.0 % old(self).spec_snapshot_manager().spec_interval() == 0),
            final(self).spec_trace_log().spec_event_count() == r.0,
            final(self).spec_trace_log().spec_path() == old(self).spec_trace_log().spec_path(),
            final(self).spec_trace_log().spec_compress() == old(self).spec_trace_log().spec_compress(),
            final(self).spec_snapshot_manager() == old(self).spec_snapshot_manager(),
            final(self).spec_trace_id() == old(self).spec_trace_id(),
    {
        let event_id = self.trace_log.record_appended();
        let checkpoint = self.snapshot_manager.should_snapshot(event_id);
        (event_id, checkpoint)
    }

    /// Get the trace ID
    pub fn trace_id(&self) -> (r: TraceId)
        ensures
            r == self.spec_trace_id(),
    {
        self.trace_id
    }

    /// Get the number of recorded events
    pub fn event_count(&self) -> (r: u64)
        ensures
            r == self.spec_trace_log().spec_event_count(),
    {
        self.trace_log.event_count()
    }

    /// The engine's log.
    pub fn trace_log(&self) -> (r: &TraceLog)
        ensures
            *r == self.spec_trace_log(),
    {
        &self.trace_log
    }

    /// The engine's snapshot manager.
    pub fn snapshot_manager(&self) -> (r: &SnapshotManager)
        ensures
            *r == self.spec_snapshot_manager(),
    {
        &self.snapshot_manager
    }
}

} // verus!
