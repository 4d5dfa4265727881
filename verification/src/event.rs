use std::collections::HashMap;
use vstd::prelude::*;
use vstd::std_specs::hash::spec_hash_map_iter;
use vstd::std_specs::iter::IteratorSpec;

verus! {

broadcast use vstd::std_specs::hash::group_hash_axioms;

/// The version bits of a random (version 4, RFC 9562 variant) UUID, as a 128-bit value.
pub open spec fn is_random_uuid(v: u128) -> bool {
    &&& (v >> 76u128) & 0xfu128 == 4
    &&& (v >> 62u128) & 0x3u128 == 2
}

/// Calls `uuid::Uuid::new_v4` and returns the UUID as a 128-bit big-endian value.
/// The value is random; the contract states only the version and variant bits that
/// `new_v4` sets after masking the random value.
#[verifier::external_body]
fn random_uuid_value() -> (r: u128)
    ensures
        is_random_uuid(r),
{
    uuid::Uuid::new_v4().as_u128()
}

/// Unique identifier for a trace session (the UUID as a 128-bit big-endian value)
#[derive(Debug, Clone, Copy, PartialEq, Eq, Hash, Structural)]
pub struct TraceId(pub u128);

impl TraceId {
    /// A fresh random identifier.
    pub fn new() -> (r: Self)
        ensures
            is_random_uuid(r.0),
    {
        TraceId(random_uuid_value())
    }
}

impl Default for TraceId {
    fn default() -> (r: Self)
        ensures
            is_random_uuid(r.0),
    {
        Self::new()
    }
}

/// Process identifier
#[derive(Debug, Clone, Copy, PartialEq, Eq, Hash, Structural)]
pub struct ProcessId(pub u32);

/// Thread identifier
#[derive(Debug, Clone, Copy, PartialEq, Eq, Hash, Structural)]
pub struct ThreadId(pub u64);

/// The logical time that a clock map gives a process: absent entries count as zero.
pub open spec fn clock_at(m: Map<u32, u64>, p: u32) -> nat {
    if m.contains_key(p) { m[p] as nat } else { 0 }
}

/// Every component of `a` is at most the matching component of `b`.
pub open spec fn clock_le(a: Map<u32, u64>, b: Map<u32, u64>) -> bool {
    forall|p: u32| clock_at(a, p) <= #[trigger] clock_at(b, p)
}

/// `a` happens before `b`: no component is larger and at least one is smaller.
pub open spec fn clock_lt(a: Map<u32, u64>, b: Map<u32, u64>) -> bool {
    &&& clock_le(a, b)
    &&& exists|p: u32| #[trigger] clock_at(a, p) < clock_at(b, p)
}

/// Neither clock happens before the other.
pub open spec fn clock_concurrent(a: Map<u32, u64>, b: Map<u32, u64>) -> bool {
    !clock_lt(a, b) && !clock_lt(b, a)
}

/// The component-wise maximum of two clocks, over the processes that either one names.
pub open spec fn clock_merge(a: Map<u32, u64>, b: Map<u32, u64>) -> Map<u32, u64> {
    Map::new(
        |p: u32| a.contains_key(p) || b.contains_key(p),
        |p: u32|
            if clock_at(a, p) >= clock_at(b, p) {
                clock_at(a, p) as u64
            } else {
                clock_at(b, p) as u64
            },
    )
}

/// The clock after one local event of process `p`.
pub open spec fn clock_tick(a: Map<u32, u64>, p: u32) -> Map<u32, u64> {
    a.insert(p, (clock_at(a, p) + 1) as u64)
}

/// No clock happens before itself.
pub proof fn lemma_happens_before_irreflexive(a: Map<u32, u64>)
    ensures
        !clock_lt(a, a),
{
}

/// If `a` happens before `b`, then `b` does not happen before `a`.
pub proof fn lemma_happens_before_asymmetric(a: Map<u32, u64>, b: Map<u32, u64>)
    requires
        clock_lt(a, b),
    ensures
        !clock_lt(b, a),
{
    let p = choose|p: u32| #[trigger] clock_at(a, p) < clock_at(b, p);
    assert(clock_at(b, p) > clock_at(a, p));
}

/// Happens-before is transitive.
pub proof fn lemma_happens_before_transitive(a: Map<u32, u64>, b: Map<u32, u64>, c: Map<u32, u64>)
    requires
        clock_lt(a, b),
        clock_lt(b, c),
    ensures
        clock_lt(a, c),
{
    let p = choose|p: u32| #[trigger] clock_at(a, p) < clock_at(b, p);
    assert(clock_at(b, p) <= clock_at(c, p));
    assert(clock_at(a, p) < clock_at(c, p));
    assert forall|q: u32| clock_at(a, q) <= #[trigger] clock_at(c, q) by {
        assert(clock_at(a, q) <= clock_at(b, q));
        assert(clock_at(b, q) <= clock_at(c, q));
    }
}

/// Concurrency is symmetric.
pub proof fn lemma_concurrent_symmetric(a: Map<u32, u64>, b: Map<u32, u64>)
    ensures
        clock_concurrent(a, b) == clock_concurrent(b, a),
{
}

/// Two clocks are concurrent exactly when they agree on every process, or each is ahead of
/// the other on some process; so a clock that happens before another is never concurrent
/// with it.
pub proof fn lemma_concurrent_iff_incomparable(a: Map<u32, u64>, b: Map<u32, u64>)
    ensures
        clock_concurrent(a, b) <==> ((forall|p: u32| #[trigger] clock_at(a, p) == clock_at(b, p)) || ((exists|
            p: u32,
        | #[trigger] clock_at(a, p) > clock_at(b, p)) && (exists|q: u32| #[trigger] clock_at(b, q) > clock_at(a, q)))),
        clock_lt(a, b) ==> !clock_concurrent(a, b) && !clock_concurrent(b, a),
{
    let equal = forall|p: u32| #[trigger] clock_at(a, p) == clock_at(b, p);
    let a_ahead = exists|p: u32| #[trigger] clock_at(a, p) > clock_at(b, p);
    let b_ahead = exists|q: u32| #[trigger] clock_at(b, q) > clock_at(a, q);
    if clock_concurrent(a, b) {
        if !equal && !(a_ahead && b_ahead) {
            let p = choose|p: u32| clock_at(a, p) != clock_at(b, p);
            if clock_at(a, p) < clock_at(b, p) {
                // b is ahead somewhere and a nowhere: a happens before b.
                assert(!a_ahead);
                assert(clock_le(a, b)) by {
                    assert forall|x: u32| clock_at(a, x) <= #[trigger] clock_at(b, x) by {
                        if clock_at(a, x) > clock_at(b, x) {
                            assert(a_ahead);
                        }
                    }
                }
                assert(clock_lt(a, b));
            } else {
                assert(!b_ahead);
                assert(clock_le(b, a)) by {
                    assert forall|x: u32| clock_at(b, x) <= #[trigger] clock_at(a, x) by {
                        if clock_at(b, x) > clock_at(a, x) {
                            assert(b_ahead);
                        }
                    }
                }
                assert(clock_lt(b, a));
            }
        }
    } else {
        if clock_lt(a, b) {
            let p = choose|p: u32| #[trigger] clock_at(a, p) < clock_at(b, p);
            assert(clock_at(a, p) != clock_at(b, p));
            if a_ahead {
                let q = choose|q: u32| #[trigger] clock_at(a, q) > clock_at(b, q);
                assert(clock_at(a, q) <= clock_at(b, q));
            }
        } else {
            assert(clock_lt(b, a));
            let p = choose|p: u32| #[trigger] clock_at(b, p) < clock_at(a, p);
            assert(clock_at(a, p) != clock_at(b, p));
            if b_ahead {
                let q = choose|q: u32| #[trigger] clock_at(b, q) > clock_at(a, q);
                assert(clock_at(b, q) <= clock_at(a, q));
            }
        }
    }
}

/// A merge dominates both of its inputs, and is below every clock that dominates both.
pub proof fn lemma_merge_least_upper_bound(a: Map<u32, u64>, b: Map<u32, u64>, c: Map<u32, u64>)
    ensures
        clock_le(a, clock_merge(a, b)),
        clock_le(b, clock_merge(a, b)),
        clock_le(a, c) && clock_le(b, c) ==> clock_le(clock_merge(a, b), c),
{
    let m = clock_merge(a, b);
    assert forall|p: u32| clock_at(a, p) <= #[trigger] clock_at(m, p) && clock_at(b, p) <= clock_at(m, p) by {
        if a.contains_key(p) || b.contains_key(p) {
            assert(m.contains_key(p));
        }
    }
    if clock_le(a, c) && clock_le(b, c) {
        assert forall|p: u32| clock_at(m, p) <= #[trigger] clock_at(c, p) by {
            assert(clock_at(a, p) <= clock_at(c, p));
            assert(clock_at(b, p) <= clock_at(c, p));
        }
    }
}

/// Merging is commutative and idempotent.
pub proof fn lemma_merge_commutative_idempotent(a: Map<u32, u64>, b: Map<u32, u64>)
    ensures
        clock_merge(a, b) == clock_merge(b, a),
        clock_merge(a, a) == a,
{
    assert(clock_merge(a, b) =~= clock_merge(b, a));
    assert(clock_merge(a, a) =~= a);
}

/// Merging is associative.
pub proof fn lemma_merge_associative(a: Map<u32, u64>, b: Map<u32, u64>, c: Map<u32, u64>)
    ensures
        clock_merge(clock_merge(a, b), c) == clock_merge(a, clock_merge(b, c)),
{
    let l = clock_merge(clock_merge(a, b), c);
    let r = clock_merge(a, clock_merge(b, c));
    assert forall|p: u32| #[trigger] l.contains_key(p) == r.contains_key(p) && (l.contains_key(p) ==> l[p] == r[p]) by {
        if a.contains_key(p) || b.contains_key(p) {
            assert(clock_merge(a, b).contains_key(p));
        }
        if b.contains_key(p) || c.contains_key(p) {
            assert(clock_merge(b, c).contains_key(p));
        }
    }
    assert(l =~= r);
}

/// Merging a clock that is already merged in changes nothing, and merging an empty clock
/// changes nothing.
pub proof fn lemma_merge_absorbs(a: Map<u32, u64>, b: Map<u32, u64>)
    ensures
        clock_merge(clock_merge(a, b), b) == clock_merge(a, b),
        clock_merge(a, Map::empty()) == a,
{
    let m = clock_merge(a, b);
    assert forall|p: u32| #[trigger] clock_merge(m, b).contains_key(p) == m.contains_key(p) && (m.contains_key(p)
        ==> clock_merge(m, b)[p] == m[p]) by {
        if a.contains_key(p) || b.contains_key(p) {
            assert(m.contains_key(p));
        }
    }
    assert(clock_merge(m, b) =~= m);
    assert(clock_merge(a, Map::empty()) =~= a);
}

/// A local event moves the clock strictly forward.
pub proof fn lemma_tick_happens_after(a: Map<u32, u64>, p: u32)
    requires
        clock_at(a, p) < u64::MAX,
    ensures
        clock_lt(a, clock_tick(a, p)),
{
    let t = clock_tick(a, p);
    assert(clock_at(a, p) < clock_at(t, p));
    assert forall|q: u32| clock_at(a, q) <= #[trigger] clock_at(t, q) by {
        if q != p {
            assert(t.contains_key(q) == a.contains_key(q));
        }
    }
}

/// A receive (merge with the sender's clock, then a local tick) happens after the send.
pub proof fn lemma_receive_happens_after_send(
    receiver: Map<u32, u64>,
    sent: Map<u32, u64>,
    p: u32,
)
    requires
        clock_at(clock_merge(receiver, sent), p) < u64::MAX,
    ensures
        clock_lt(sent, clock_tick(clock_merge(receiver, sent), p)),
        clock_lt(receiver, clock_tick(clock_merge(receiver, sent), p)),
{
    let m = clock_merge(receiver, sent);
    lemma_merge_least_upper_bound(receiver, sent, m);
    lemma_tick_happens_after(m, p);
    let t = clock_tick(m, p);
    assert forall|q: u32| clock_at(sent, q) <= #[trigger] clock_at(t, q) by {
        assert(clock_at(sent, q) <= clock_at(m, q));
        assert(clock_at(m, q) <= clock_at(t, q));
    }
    assert(clock_at(sent, p) < clock_at(t, p)) by {
        assert(clock_at(sent, p) <= clock_at(m, p));
    }
    assert forall|q: u32| clock_at(receiver, q) <= #[trigger] clock_at(t, q) by {
        assert(clock_at(receiver, q) <= clock_at(m, q));
        assert(clock_at(m, q) <= clock_at(t, q));
    }
    assert(clock_at(receiver, p) < clock_at(t, p)) by {
        assert(clock_at(receiver, p) <= clock_at(m, p));
    }
}

/// Vector clock for distributed causality tracking
#[derive(Debug, PartialEq, Eq)]
pub struct VectorClock {
    pub clocks: HashMap<u32, u64>,
}

impl VectorClock {
    pub fn new() -> (r: Self)
        ensures
            r.clocks@ == Map::<u32, u64>::empty(),
    {
        VectorClock { clocks: HashMap::new() }
    }

    /// Records a local event of `process`: its component goes up by one.
    pub fn increment(&mut self, process: ProcessId)
        requires
            clock_at(old(self).clocks@, process.0) < u64::MAX,
        ensures
            final(self).clocks@ == clock_tick(old(self).clocks@, process.0),
    {
        let current = match self.clocks.get(&process.0) {
            Some(c) => *c,
            None => 0,
        };
        self.clocks.insert(process.0, current + 1);
    }

    /// Takes the component-wise maximum with `other`.
    pub fn merge(&mut self, other: &VectorClock)
        ensures
            final(self).clocks@ == clock_merge(old(self).clocks@, other.clocks@),
    {
        let ghost start = self.clocks@;
        let ghost theirs = spec_hash_map_iter(&other.clocks).remaining();
        let ghost mut seen: Set<u32> = Set::empty();
        for entry in it: other.clocks.iter()
            invariant
                it.seq() == theirs,
                theirs == spec_hash_map_iter(&other.clocks).remaining(),
                forall|i: int| 0 <= i < it.index() ==> seen.contains(*#[trigger] theirs[i].0),
                forall|p: u32| seen.contains(p) ==> other.clocks@.contains_key(p),
                forall|p: u32| #[trigger] self.clocks@.contains_key(p)
                    <==> start.contains_key(p) || seen.contains(p),
                forall|p: u32| #[trigger] self.clocks@.contains_key(p) ==> self.clocks@[p] == (
                    if seen.contains(p) { clock_merge(start, other.clocks@)[p] } else { start[p] }),
        {
            let (process, clock) = entry;
            assert(entry == it.seq()[it.index()]);
            let current = match self.clocks.get(process) {
                Some(c) => *c,
                None => 0,
            };
            let updated = if current >= *clock { current } else { *clock };
            self.clocks.insert(*process, updated);
            proof {
                seen = seen.insert(*process);
            }
        }
        assert forall|p: u32| other.clocks@.contains_key(p) implies seen.contains(p) by {
            assert(theirs.contains((&p, &other.clocks@[p])));
            let j = choose|j: int| 0 <= j < theirs.len() && theirs[j] == (&p, &other.clocks@[p]);
            assert(seen.contains(*theirs[j].0));
        }
        assert(self.clocks@ =~= clock_merge(start, other.clocks@));
    }

    pub fn happens_before(&self, other: &VectorClock) -> (r: bool)
        ensures
            r == clock_lt(self.clocks@, other.clocks@),
    {
        let ghost mine = spec_hash_map_iter(&self.clocks).remaining();
        let ghost theirs = spec_hash_map_iter(&other.clocks).remaining();
        let mut strictly_less = false;
        for entry in it: self.clocks.iter()
            invariant
                it.seq() == mine,
                mine == spec_hash_map_iter(&self.clocks).remaining(),
                strictly_less <==> exists|j: int|
                    0 <= j < it.index() && *mine[j].1 < clock_at(other.clocks@, *mine[j].0),
                forall|j: int|
                    0 <= j < it.index() ==> *mine[j].1 <= clock_at(other.clocks@, *mine[j].0),
        {
            let (process, our_clock) = entry;
            let their_clock = match other.clocks.get(process) {
                Some(c) => *c,
                None => 0,
            };
            assert(entry == it.seq()[it.index()]);
            assert(self.clocks@.contains_key(*process));
            assert(self.clocks@[*process] == *our_clock);
            if *our_clock > their_clock {
                assert(clock_at(self.clocks@, *process) > clock_at(other.clocks@, *process));
                return false;
            }
            if *our_clock < their_clock {
                strictly_less = true;
            }
        }
        assert forall|p: u32| #[trigger] self.clocks@.contains_key(p) implies clock_at(self.clocks@, p)
            <= clock_at(other.clocks@, p) by {
            assert(mine.contains((&p, &self.clocks@[p])));
        }
        assert(strictly_less <==> exists|p: u32|
            self.clocks@.contains_key(p) && #[trigger] clock_at(self.clocks@, p) < clock_at(other.clocks@, p)) by {
            if strictly_less {
                let j = choose|j: int|
                    0 <= j < mine.len() && *mine[j].1 < clock_at(other.clocks@, *mine[j].0);
                assert(self.clocks@.contains_key(*mine[j].0));
            }
            if exists|p: u32| self.clocks@.contains_key(p) && #[trigger] clock_at(self.clocks@, p) < clock_at(other.clocks@, p) {
                let p = choose|p: u32| self.clocks@.contains_key(p) && #[trigger] clock_at(self.clocks@, p) < clock_at(other.clocks@, p);
                assert(mine.contains((&p, &self.clocks@[p])));
                let j = choose|j: int| 0 <= j < mine.len() && mine[j] == (&p, &self.clocks@[p]);
                assert(*mine[j].1 < clock_at(other.clocks@, *mine[j].0));
            }
        }
        let ghost first_pass = strictly_less;
        for entry in it: other.clocks.iter()
            invariant
                it.seq() == theirs,
                theirs == spec_hash_map_iter(&other.clocks).remaining(),
                strictly_less <==> (first_pass || exists|j: int|
                    0 <= j < it.index() && !self.clocks@.contains_key(*theirs[j].0) && *theirs[j].1 > 0),
        {
            let (process, their_clock) = entry;
            assert(entry == it.seq()[it.index()]);
            if !self.clocks.contains_key(process) && *their_clock > 0 {
                strictly_less = true;
            }
        }
        assert(strictly_less <==> exists|p: u32| #[trigger] clock_at(self.clocks@, p) < clock_at(other.clocks@, p)) by {
            if strictly_less && !first_pass {
                let j = choose|j: int|
                    0 <= j < theirs.len() && !self.clocks@.contains_key(*theirs[j].0) && *theirs[j].1 > 0;
                assert(other.clocks@.contains_key(*theirs[j].0));
                assert(clock_at(self.clocks@, *theirs[j].0) < clock_at(other.clocks@, *theirs[j].0));
            }
            if exists|p: u32| #[trigger] clock_at(self.clocks@, p) < clock_at(other.clocks@, p) {
                let p = choose|p: u32| #[trigger] clock_at(self.clocks@, p) < clock_at(other.clocks@, p);
                if !self.clocks@.contains_key(p) {
                    assert(other.clocks@.contains_key(p));
                    assert(theirs.contains((&p, &other.clocks@[p])));
                    let j = choose|j: int| 0 <= j < theirs.len() && theirs[j] == (&p, &other.clocks@[p]);
                    assert(!self.clocks@.contains_key(*theirs[j].0) && *theirs[j].1 > 0);
                }
            }
        }
        strictly_less
    }

    /// Neither clock happens before the other.
    pub fn concurrent_with(&self, other: &VectorClock) -> (r: bool)
        ensures
            r == clock_concurrent(self.clocks@, other.clocks@),
    {
        !self.happens_before(other) && !other.happens_before(self)
    }
}

impl Clone for VectorClock {
    fn clone(&self) -> (r: Self)
        ensures
            r.clocks@ == self.clocks@,
    {
        VectorClock { clocks: self.clocks.clone() }
    }
}

impl Default for VectorClock {
    fn default() -> (r: Self)
        ensures
            r.clocks@ == Map::<u32, u64>::empty(),
    {
        Self::new()
    }
}

/// Event metadata attached to every captured event
#[derive(Debug, Clone)]
pub struct EventMetadata {
    pub trace_id: TraceId,
    pub process_id: ProcessId,
    pub thread_id: ThreadId,
    pub timestamp_ns: u64,
    pub vector_clock: VectorClock,
    pub sequence_number: u64,
}

#[derive(Debug, Clone, Copy, PartialEq, Eq, Structural)]
pub enum IODirection {
    Send,
    Receive,
}

/// Core event types captured during execution
#[derive(Debug, Clone)]
pub enum Event {
    /// Function call entry
    FunctionCall {
        metadata: EventMetadata,
        function_name: String,
        module: String,
        /// Serialized arguments
        args: Vec<u8>,
        stack_depth: u32,
    },
    /// Function return
    FunctionReturn {
        metadata: EventMetadata,
        function_name: String,
        /// Serialized return value
        return_value: Vec<u8>,
        stack_depth: u32,
    },
    /// Memory write operation
    MemoryWrite {
        metadata: EventMetadata,
        address: u64,
        size: usize,
        old_value: Vec<u8>,
        new_value: Vec<u8>,
    },
    /// System call
    Syscall {
        metadata: EventMetadata,
        syscall_number: u64,
        syscall_name: String,
        args: Vec<u64>,
        result: i64,
    },
    /// Thread context switch
    ThreadSwitch { metadata: EventMetadata, from_thread: ThreadId, to_thread: ThreadId, reason: String },
    /// Network I/O operation
    NetworkIO {
        metadata: EventMetadata,
        direction: IODirection,
        socket_fd: i32,
        remote_addr: String,
        data: Vec<u8>,
        bytes_transferred: usize,
    },
    /// Garbage collection event
    GarbageCollection {
        metadata: EventMetadata,
        gc_type: String,
        duration_ns: u64,
        bytes_collected: usize,
        heap_size_before: usize,
        heap_size_after: usize,
    },
    /// Thread lifecycle
    ThreadCreate { metadata: EventMetadata, new_thread_id: ThreadId, parent_thread_id: ThreadId },
    ThreadExit { metadata: EventMetadata, exit_code: i32 },
    /// Process lifecycle
    ProcessFork { metadata: EventMetadata, child_process_id: ProcessId },
    ProcessExec { metadata: EventMetadata, executable: String, args: Vec<String> },
    /// Synchronization primitives
    MutexLock { metadata: EventMetadata, mutex_id: u64, acquired: bool },
    MutexUnlock { metadata: EventMetadata, mutex_id: u64 },
    /// Nondeterministic input capture
    RandomBytes { metadata: EventMetadata, bytes: Vec<u8> },
    Timestamp { metadata: EventMetadata, wall_clock_ns: u64 },
}

/// The metadata that every event carries.
pub open spec fn metadata_of(e: Event) -> EventMetadata {
    match e {
        Event::FunctionCall { metadata, .. } => metadata,
        Event::FunctionReturn { metadata, .. } => metadata,
        Event::MemoryWrite { metadata, .. } => metadata,
        Event::Syscall { metadata, .. } => metadata,
        Event::ThreadSwitch { metadata, .. } => metadata,
        Event::NetworkIO { metadata, .. } => metadata,
        Event::GarbageCollection { metadata, .. } => metadata,
        Event::ThreadCreate { metadata, .. } => metadata,
        Event::ThreadExit { metadata, .. } => metadata,
        Event::ProcessFork { metadata, .. } => metadata,
        Event::ProcessExec { metadata, .. } => metadata,
        Event::MutexLock { metadata, .. } => metadata,
        Event::MutexUnlock { metadata, .. } => metadata,
        Event::RandomBytes { metadata, .. } => metadata,
        Event::Timestamp { metadata, .. } => metadata,
    }
}

/// The name of an event's variant.
pub open spec fn event_type_name(e: Event) -> Seq<char> {
    match e {
        Event::FunctionCall { .. } => "FunctionCall"@,
        Event::FunctionReturn { .. } => "FunctionReturn"@,
        Event::MemoryWrite { .. } => "MemoryWrite"@,
        Event::Syscall { .. } => "Syscall"@,
        Event::ThreadSwitch { .. } => "ThreadSwitch"@,
        Event::NetworkIO { .. } => "NetworkIO"@,
        Event::GarbageCollection { .. } => "GarbageCollection"@,
        Event::ThreadCreate { .. } => "ThreadCreate"@,
        Event::ThreadExit { .. } => "ThreadExit"@,
        Event::ProcessFork { .. } => "ProcessFork"@,
        Event::ProcessExec { .. } => "ProcessExec"@,
        Event::MutexLock { .. } => "MutexLock"@,
        Event::MutexUnlock { .. } => "MutexUnlock"@,
        Event::RandomBytes { .. } => "RandomBytes"@,
        Event::Timestamp { .. } => "Timestamp"@,
    }
}

impl Event {
    pub fn metadata(&self) -> (r: &EventMetadata)
        ensures
            *r == metadata_of(*self),
    {
        match self {
            Event::FunctionCall { metadata, .. } => metadata,
            Event::FunctionReturn { metadata, .. } => metadata,
            Event::MemoryWrite { metadata, .. } => metadata,
            Event::Syscall { metadata, .. } => metadata,
            Event::ThreadSwitch { metadata, .. } => metadata,
            Event::NetworkIO { metadata, .. } => metadata,
            Event::GarbageCollection { metadata, .. } => metadata,
            Event::ThreadCreate { metadata, .. } => metadata,
            Event::ThreadExit { metadata, .. } => metadata,
            Event::ProcessFork { metadata, .. } => metadata,
            Event::ProcessExec { metadata, .. } => metadata,
            Event::MutexLock { metadata, .. } => metadata,
            Event::MutexUnlock { metadata, .. } => metadata,
            Event::RandomBytes { metadata, .. } => metadata,
            Event::Timestamp { metadata, .. } => metadata,
        }
    }

    pub fn event_type(&self) -> (r: &'static str)
        ensures
            r@ == event_type_name(*self),
    {
        match self {
            Event::FunctionCall { .. } => "FunctionCall",
            Event::FunctionReturn { .. } => "FunctionReturn",
            Event::MemoryWrite { .. } => "MemoryWrite",
            Event::Syscall { .. } => "Syscall",
            Event::ThreadSwitch { .. } => "ThreadSwitch",
            Event::NetworkIO { .. } => "NetworkIO",
            Event::GarbageCollection { .. } => "GarbageCollection",
            Event::ThreadCreate { .. } => "ThreadCreate",
            Event::ThreadExit { .. } => "ThreadExit",
            Event::ProcessFork { .. } => "ProcessFork",
            Event::ProcessExec { .. } => "ProcessExec",
            Event::MutexLock { .. } => "MutexLock",
            Event::MutexUnlock { .. } => "MutexUnlock",
            Event::RandomBytes { .. } => "RandomBytes",
            Event::Timestamp { .. } => "Timestamp",
        }
    }
}

} // verus!
