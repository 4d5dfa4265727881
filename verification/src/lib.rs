//! Trace recording and deterministic replay: vector clocks, the deterministic scheduler,
//! the trace log's record format, memory snapshots and the replay engine.
pub mod controlled_scheduler;
pub mod engine;
pub mod event;
pub mod replay;
pub mod scheduler;
pub mod snapshot;
pub mod text;
pub mod trace_log;

pub use controlled_scheduler::ControlledScheduler;
pub use engine::TraceEngine;
pub use event::{Event, EventMetadata, IODirection, ProcessId, ThreadId, TraceId, VectorClock};
pub use replay::{ReplayEngine, ReplayError};
pub use scheduler::{DeterministicScheduler, SchedulerDecision, SchedulingEvent};
pub use snapshot::{MemoryDiff, MemoryRegion, Snapshot, SnapshotManager, SnapshotType};
pub use trace_log::{LogError, TraceLog};
pub mod console;
