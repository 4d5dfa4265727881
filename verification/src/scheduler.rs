use std::collections::HashMap;
use std::collections::VecDeque;
use vstd::prelude::*;

use crate::event::ThreadId;

verus! {

broadcast use vstd::std_specs::hash::group_hash_axioms;

/// Decision made by the deterministic scheduler
#[derive(Debug, Clone, Copy, PartialEq, Eq, Structural)]
pub enum SchedulerDecision {
    /// Allow the thread to continue execution
    Continue,
    /// Block the thread and switch to another
    Block,
    /// Yield to another thread
    Yield,
}

#[derive(Debug, Clone, Copy, PartialEq, Eq, Structural)]
pub enum SchedulerMode {
    Recording,
    Replaying,
}

#[derive(Debug, Clone, Copy, PartialEq, Eq, Structural)]
pub enum ThreadSchedulingState {
    Ready,
    Running,
    Blocked,
    Terminated,
}

/// One scheduling decision as it was taken or is to be enforced.
#[derive(Debug)]
pub struct SchedulingEvent {
    pub sequence: u64,
    pub thread_id: ThreadId,
    pub decision: SchedulerDecision,
    pub reason: String,
}

/// The plain content of a `SchedulingEvent`.
pub struct DecisionRecord {
    pub sequence: u64,
    pub thread: u64,
    pub decision: SchedulerDecision,
    pub reason: Seq<char>,
}

impl View for SchedulingEvent {
    type V = DecisionRecord;

    open spec fn view(&self) -> DecisionRecord {
        DecisionRecord {
            sequence: self.sequence,
            thread: self.thread_id.0,
            decision: self.decision,
            reason: self.reason@,
        }
    }
}

impl Clone for SchedulingEvent {
    fn clone(&self) -> (r: Self)
        ensures
            r@ == self@,
    {
        SchedulingEvent {
            sequence: self.sequence,
            thread_id: self.thread_id,
            decision: self.decision,
            reason: self.reason.clone(),
        }
    }
}

/// The abstract state of a `DeterministicScheduler`.
pub struct SchedulerModel {
    pub mode: SchedulerMode,
    pub queue: Seq<DecisionRecord>,
    pub current: Option<u64>,
    pub states: Map<u64, ThreadSchedulingState>,
}

/// The state a thread is in for the scheduler; threads it has not seen are ready.
pub open spec fn state_of(states: Map<u64, ThreadSchedulingState>, t: u64) -> ThreadSchedulingState {
    if states.contains_key(t) { states[t] } else { ThreadSchedulingState::Ready }
}

/// The reason recorded with each decision taken while recording.
pub open spec fn recorded_reason() -> Seq<char> {
    seq!['r', 'e', 'c', 'o', 'r', 'd', 'e', 'd']
}

/// A thread that is ready or running may continue; a blocked or terminated one may not.
pub open spec fn may_continue(states: Map<u64, ThreadSchedulingState>, t: u64) -> bool {
    let st = state_of(states, t);
    st == ThreadSchedulingState::Ready || st == ThreadSchedulingState::Running
}

/// One call of `schedule(t, sequence)`: the next state and the decision returned.
pub open spec fn schedule_step(s: SchedulerModel, t: u64, sequence: u64) -> (SchedulerModel, SchedulerDecision) {
    match s.mode {
        SchedulerMode::Recording => {
            let runnable = may_continue(s.states, t);
            let decision = if runnable { SchedulerDecision::Continue } else { SchedulerDecision::Block };
            let record = DecisionRecord { sequence, thread: t, decision, reason: recorded_reason() };
            let next = SchedulerModel {
                mode: s.mode,
                queue: s.queue.push(record),
                current: if runnable { Some(t) } else { s.current },
                states: if runnable { s.states.insert(t, ThreadSchedulingState::Running) } else { s.states },
            };
            (next, decision)
        },
        SchedulerMode::Replaying => {
            if s.queue.len() > 0 && s.queue[0].thread == t && s.queue[0].sequence == sequence {
                (SchedulerModel { queue: s.queue.drop_first(), ..s }, s.queue[0].decision)
            } else {
                (s, SchedulerDecision::Block)
            }
        },
    }
}

/// A call made on a scheduler: `schedule`, `register_thread` or `terminate_thread`.
pub enum SchedulerOp {
    Schedule { thread: u64, sequence: u64 },
    Register { thread: u64 },
    Terminate { thread: u64 },
}

/// One call: the next state, and the decision returned if the call is `schedule`.
pub open spec fn op_step(s: SchedulerModel, op: SchedulerOp) -> (SchedulerModel, Option<SchedulerDecision>) {
    match op {
        SchedulerOp::Schedule { thread, sequence } => {
            let (next, d) = schedule_step(s, thread, sequence);
            (next, Some(d))
        },
        SchedulerOp::Register { thread } => (
            SchedulerModel { states: s.states.insert(thread, ThreadSchedulingState::Ready), ..s },
            None,
        ),
        SchedulerOp::Terminate { thread } => (
            SchedulerModel { states: s.states.insert(thread, ThreadSchedulingState::Terminated), ..s },
            None,
        ),
    }
}

/// A run of calls: the final state and the decisions that the `schedule` calls returned, in order.
pub open spec fn run_ops(s: SchedulerModel, ops: Seq<SchedulerOp>) -> (SchedulerModel, Seq<SchedulerDecision>)
    decreases ops.len(),
{
    if ops.len() == 0 {
        (s, Seq::empty())
    } else {
        let (next, d) = op_step(s, ops[0]);
        let (last, ds) = run_ops(next, ops.drop_first());
        match d {
            Some(x) => (last, seq![x] + ds),
            None => (last, ds),
        }
    }
}

/// The (thread, sequence) pairs of the `schedule` calls of a run, in order.
pub open spec fn schedule_calls(ops: Seq<SchedulerOp>) -> Seq<(u64, u64)>
    decreases ops.len(),
{
    if ops.len() == 0 {
        Seq::empty()
    } else {
        match ops[0] {
            SchedulerOp::Schedule { thread, sequence } => seq![(thread, sequence)] + schedule_calls(ops.drop_first()),
            _ => schedule_calls(ops.drop_first()),
        }
    }
}

/// The (thread, sequence) pairs of a list of recorded decisions, in order.
pub open spec fn calls_of(queue: Seq<DecisionRecord>) -> Seq<(u64, u64)> {
    queue.map_values(|r: DecisionRecord| (r.thread, r.sequence))
}

/// The decisions of a list of recorded decisions, in order.
pub open spec fn decisions_of(queue: Seq<DecisionRecord>) -> Seq<SchedulerDecision> {
    queue.map_values(|r: DecisionRecord| r.decision)
}

/// In replay mode, a run whose `schedule` calls are the queued (thread, sequence) pairs in
/// order, with any `register_thread` and `terminate_thread` calls between them, returns the
/// queued decisions in order and empties the queue.
pub proof fn lemma_replay_follows_queue(s: SchedulerModel, ops: Seq<SchedulerOp>)
    requires
        s.mode == SchedulerMode::Replaying,
        calls_of(s.queue) == schedule_calls(ops),
    ensures
        run_ops(s, ops).1 == decisions_of(s.queue),
        run_ops(s, ops).0.queue.len() == 0,
        run_ops(s, ops).0.mode == SchedulerMode::Replaying,
    decreases ops.len(),
{
    if ops.len() == 0 {
        assert(calls_of(s.queue).len() == 0);
        assert(decisions_of(s.queue) =~= Seq::empty());
    } else {
        let (next, d) = op_step(s, ops[0]);
        match ops[0] {
            SchedulerOp::Schedule { thread, sequence } => {
                assert(schedule_calls(ops) == seq![(thread, sequence)] + schedule_calls(ops.drop_first()));
                assert(s.queue.len() > 0);
                assert(calls_of(s.queue)[0] == (thread, sequence));
                assert(next.queue == s.queue.drop_first());
                assert(calls_of(next.queue) =~= schedule_calls(ops).drop_first());
                assert(schedule_calls(ops).drop_first() =~= schedule_calls(ops.drop_first()));
                lemma_replay_follows_queue(next, ops.drop_first());
                assert(decisions_of(s.queue) =~= seq![s.queue[0].decision] + decisions_of(next.queue));
            },
            _ => {
                lemma_replay_follows_queue(next, ops.drop_first());
            },
        }
    }
}

/// In recording mode, each `schedule` call appends one record that holds the call's thread
/// and sequence and the decision returned; other calls append nothing; the mode stays
/// recording.
pub proof fn lemma_recording_appends(s: SchedulerModel, ops: Seq<SchedulerOp>)
    requires
        s.mode == SchedulerMode::Recording,
    ensures
        ({
            let (last, ds) = run_ops(s, ops);
            let calls = schedule_calls(ops);
            &&& last.mode == SchedulerMode::Recording
            &&& ds.len() == calls.len()
            &&& last.queue.len() == s.queue.len() + calls.len()
            &&& last.queue.subrange(0, s.queue.len() as int) == s.queue
            &&& forall|i: int| 0 <= i < calls.len() ==> {
                let r = #[trigger] last.queue[s.queue.len() + i];
                &&& (r.thread, r.sequence) == calls[i]
                &&& r.decision == ds[i]
                &&& r.reason == recorded_reason()
            }
        }),
    decreases ops.len(),
{
    if ops.len() > 0 {
        let (next, d) = op_step(s, ops[0]);
        lemma_recording_appends(next, ops.drop_first());
        let (last, ds) = run_ops(s, ops);
        let (last2, ds2) = run_ops(next, ops.drop_first());
        let calls = schedule_calls(ops);
        let calls2 = schedule_calls(ops.drop_first());
        assert(last == last2);
        match ops[0] {
            SchedulerOp::Schedule { thread, sequence } => {
                assert(ds == seq![d.unwrap()] + ds2);
                assert(calls == seq![(thread, sequence)] + calls2);
                assert(next.queue.len() == s.queue.len() + 1);
                assert(last.queue.subrange(0, next.queue.len() as int) == next.queue);
                assert(last.queue.subrange(0, s.queue.len() as int) =~= next.queue.subrange(0, s.queue.len() as int));
                assert forall|i: int| 0 <= i < calls.len() implies {
                    let r = #[trigger] last.queue[s.queue.len() + i];
                    &&& (r.thread, r.sequence) == calls[i]
                    &&& r.decision == ds[i]
                    &&& r.reason == recorded_reason()
                } by {
                    if i == 0 {
                        assert(last.queue[s.queue.len() as int] == last.queue.subrange(0, next.queue.len() as int)[s.queue.len() as int]);
                    } else {
                        assert(last.queue[s.queue.len() + i] == last2.queue[next.queue.len() + (i - 1)]);
                    }
                }
            },
            _ => {
                assert(ds == ds2);
                assert(calls == calls2);
            },
        }
    } else {
        assert(s.queue.subrange(0, s.queue.len() as int) =~= s.queue);
    }
}

/// Replaying what a fresh recorder recorded returns the recorded decisions in the recorded
/// order and consumes every one of them: the replay makes the same `schedule` calls in the
/// same order as the recording, each run may register and terminate threads anywhere between
/// them, and the replaying scheduler may start from any thread states.
pub proof fn lemma_replay_reproduces_recording(
    recorder: SchedulerModel,
    recording: Seq<SchedulerOp>,
    replay: Seq<SchedulerOp>,
    current: Option<u64>,
    states: Map<u64, ThreadSchedulingState>,
)
    requires
        recorder.mode == SchedulerMode::Recording,
        recorder.queue.len() == 0,
        schedule_calls(replay) == schedule_calls(recording),
    ensures
        ({
            let (recorded, decisions) = run_ops(recorder, recording);
            let replayer = SchedulerModel {
                mode: SchedulerMode::Replaying,
                queue: recorded.queue,
                current,
                states,
            };
            &&& run_ops(replayer, replay).1 == decisions
            &&& run_ops(replayer, replay).0.queue.len() == 0
        }),
{
    lemma_recording_appends(recorder, recording);
    let (recorded, decisions) = run_ops(recorder, recording);
    let calls = schedule_calls(recording);
    let replayer = SchedulerModel { mode: SchedulerMode::Replaying, queue: recorded.queue, current, states };
    assert(calls_of(recorded.queue) =~= calls) by {
        assert forall|i: int| 0 <= i < calls.len() implies calls_of(recorded.queue)[i] == calls[i] by {
            assert(recorded.queue[recorder.queue.len() + i] == recorded.queue[i]);
        }
    }
    lemma_replay_follows_queue(replayer, replay);
    assert(decisions_of(recorded.queue) =~= decisions) by {
        assert forall|i: int| 0 <= i < calls.len() implies decisions_of(recorded.queue)[i] == decisions[i] by {
            assert(recorded.queue[recorder.queue.len() + i] == recorded.queue[i]);
        }
    }
}

/// While recording, a terminated thread stays terminated until it is registered again, and
/// every `schedule` call for it meanwhile returns `Block` (and records `Block`).
pub proof fn lemma_terminated_stays_blocked(s: SchedulerModel, ops: Seq<SchedulerOp>, t: u64)
    requires
        s.mode == SchedulerMode::Recording,
        state_of(s.states, t) == ThreadSchedulingState::Terminated,
        forall|i: int| 0 <= i < ops.len() ==> !(#[trigger] ops[i] matches SchedulerOp::Register { thread } && thread == t),
    ensures
        state_of(run_ops(s, ops).0.states, t) == ThreadSchedulingState::Terminated,
        run_ops(s, ops).1.len() == schedule_calls(ops).len(),
        forall|i: int| 0 <= i < schedule_calls(ops).len() && (#[trigger] schedule_calls(ops)[i]).0 == t
            ==> run_ops(s, ops).1[i] == SchedulerDecision::Block,
    decreases ops.len(),
{
    if ops.len() > 0 {
        let (next, d) = op_step(s, ops[0]);
        let rest = ops.drop_first();
        assert forall|i: int| 0 <= i < rest.len() implies !(#[trigger] rest[i] matches SchedulerOp::Register { thread } && thread == t) by {
            assert(rest[i] == ops[i + 1]);
        }
        assert(!(ops[0] matches SchedulerOp::Register { thread } && thread == t));
        assert(state_of(next.states, t) == ThreadSchedulingState::Terminated);
        assert(next.mode == SchedulerMode::Recording);
        lemma_terminated_stays_blocked(next, rest, t);
        let calls = schedule_calls(ops);
        let (last, ds) = run_ops(s, ops);
        let ds2 = run_ops(next, rest).1;
        match ops[0] {
            SchedulerOp::Schedule { thread, sequence } => {
                assert(calls == seq![(thread, sequence)] + schedule_calls(rest));
                assert(ds == seq![d.unwrap()] + ds2);
                assert forall|i: int| 0 <= i < calls.len() && (#[trigger] calls[i]).0 == t implies ds[i]
                    == SchedulerDecision::Block by {
                    if i > 0 {
                        assert(calls[i] == schedule_calls(rest)[i - 1]);
                        assert(ds[i] == ds2[i - 1]);
                    } else {
                        assert(thread == t);
                        assert(!may_continue(s.states, t));
                        assert(ds[0] == d.unwrap());
                    }
                }
            },
            _ => {
                assert(calls == schedule_calls(rest));
            },
        }
    }
}

/// Deterministic scheduler for replay
///
/// During recording, captures all scheduling decisions.
/// During replay, enforces the exact same execution order.
pub struct DeterministicScheduler {
    mode: SchedulerMode,
    recorded_decisions: VecDeque<SchedulingEvent>,
    current_thread: Option<ThreadId>,
    thread_states: HashMap<u64, ThreadSchedulingState>,
}

impl DeterministicScheduler {
    pub closed spec fn view(&self) -> SchedulerModel {
        SchedulerModel {
            mode: self.mode,
            queue: self.recorded_decisions@.map_values(|e: SchedulingEvent| e@),
            current: match self.current_thread {
                Some(t) => Some(t.0),
                None => None,
            },
            states: self.thread_states@,
        }
    }

    pub fn new() -> (r: Self)
        ensures
            r.view() == (SchedulerModel {
                mode: SchedulerMode::Recording,
                queue: Seq::empty(),
                current: None,
                states: Map::empty(),
            }),
    {
        let r = DeterministicScheduler {
            mode: SchedulerMode::Recording,
            recorded_decisions: VecDeque::new(),
            current_thread: None,
            thread_states: HashMap::new(),
        };
        assert(r.view().queue =~= Seq::empty());
        r
    }

    /// Switch to replay mode
    pub fn set_replay_mode(&mut self, decisions: Vec<SchedulingEvent>)
        ensures
            final(self).view() == (SchedulerModel {
                mode: SchedulerMode::Replaying,
                queue: decisions@.map_values(|e: SchedulingEvent| e@),
                ..old(self).view()
            }),
    {
        let mut queue: VecDeque<SchedulingEvent> = VecDeque::new();
        let n = decisions.len();
        for i in 0..n
            invariant
                n == decisions@.len(),
                queue@.len() == i,
                forall|k: int| 0 <= k < i ==> (#[trigger] queue@[k])@ == decisions@[k]@,
        {
            queue.push_back(decisions[i].clone());
        }
        self.mode = SchedulerMode::Replaying;
        self.recorded_decisions = queue;
        assert(self.view().queue =~= decisions@.map_values(|e: SchedulingEvent| e@));
    }

    /// Make a scheduling decision for a thread
    pub fn schedule(&mut self, thread_id: ThreadId, sequence: u64) -> (r: SchedulerDecision)
        ensures
            (final(self).view(), r) == schedule_step(old(self).view(), thread_id.0, sequence),
            (final(self).view(), Some(r)) == op_step(
                old(self).view(),
                SchedulerOp::Schedule { thread: thread_id.0, sequence },
            ),
    {
        match self.mode {
            SchedulerMode::Recording => {
                let decision = self.make_decision(thread_id);
                let reason = "recorded".to_string();
                proof {
                    broadcast use vstd::string::group_string_axioms;
                    reveal_strlit("recorded");
                    assert(reason@ == "recorded"@);
                    assert(reason@ =~= recorded_reason());
                }
                self.recorded_decisions.push_back(SchedulingEvent { sequence, thread_id, decision, reason });
                assert(self.view().queue =~= old(self).view().queue.push(
                    DecisionRecord { sequence, thread: thread_id.0, decision, reason: recorded_reason() }));
                decision
            },
            SchedulerMode::Replaying => {
                if self.recorded_decisions.len() > 0 {
                    let front = &self.recorded_decisions[0];
                    if front.thread_id.0 == thread_id.0 && front.sequence == sequence {
                        let decision = front.decision;
                        let _ = self.recorded_decisions.pop_front();
                        assert(self.view().queue =~= old(self).view().queue.drop_first());
                        return decision;
                    }
                }
                SchedulerDecision::Block
            },
        }
    }

    /// Register a new thread
    pub fn register_thread(&mut self, thread_id: ThreadId)
        ensures
            (final(self).view(), None::<SchedulerDecision>) == op_step(
                old(self).view(),
                SchedulerOp::Register { thread: thread_id.0 },
            ),
    {
        self.thread_states.insert(thread_id.0, ThreadSchedulingState::Ready);
    }

    /// Mark a thread as terminated
    pub fn terminate_thread(&mut self, thread_id: ThreadId)
        ensures
            (final(self).view(), None::<SchedulerDecision>) == op_step(
                old(self).view(),
                SchedulerOp::Terminate { thread: thread_id.0 },
            ),
    {
        self.thread_states.insert(thread_id.0, ThreadSchedulingState::Terminated);
    }

    /// Get recorded scheduling decisions
    pub fn get_decisions(&self) -> (r: Vec<SchedulingEvent>)
        ensures
            r@.map_values(|e: SchedulingEvent| e@) == self.view().queue,
    {
        let mut out: Vec<SchedulingEvent> = Vec::new();
        let n = self.recorded_decisions.len();
        for i in 0..n
            invariant
                n == self.recorded_decisions@.len(),
                out@.len() == i,
                forall|k: int| 0 <= k < i ==> (#[trigger] out@[k])@ == self.recorded_decisions@[k]@,
        {
            out.push(self.recorded_decisions[i].clone());
        }
        assert(out@.map_values(|e: SchedulingEvent| e@) =~= self.view().queue);
        out
    }

    fn make_decision(&mut self, thread_id: ThreadId) -> (r: SchedulerDecision)
        requires
            old(self).mode == SchedulerMode::Recording,
        ensures
            final(self).mode == old(self).mode,
            final(self).recorded_decisions@ == old(self).recorded_decisions@,
            may_continue(old(self).view().states, thread_id.0) ==> {
                &&& r == SchedulerDecision::Continue
                &&& final(self).view().current == Some(thread_id.0)
                &&& final(self).view().states == old(self).view().states.insert(
                    thread_id.0,
                    ThreadSchedulingState::Running,
                )
            },
            !may_continue(old(self).view().states, thread_id.0) ==> {
                &&& r == SchedulerDecision::Block
                &&& final(self).view().current == old(self).view().current
                &&& final(self).view().states == old(self).view().states
            },
    {
        let state = match self.thread_states.get(&thread_id.0) {
            Some(s) => *s,
            None => ThreadSchedulingState::Ready,
        };
        match state {
            ThreadSchedulingState::Ready | ThreadSchedulingState::Running => {
                self.current_thread = Some(thread_id);
                self.thread_states.insert(thread_id.0, ThreadSchedulingState::Running);
                SchedulerDecision::Continue
            },
            ThreadSchedulingState::Blocked => SchedulerDecision::Block,
            ThreadSchedulingState::Terminated => SchedulerDecision::Block,
        }
    }
}

impl Default for DeterministicScheduler {
    fn default() -> (r: Self)
        ensures
            r.view() == (SchedulerModel {
                mode: SchedulerMode::Recording,
                queue: Seq::empty(),
                current: None,
                states: Map::empty(),
            }),
    {
        Self::new()
    }
}

} // verus!
