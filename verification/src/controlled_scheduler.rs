use std::collections::HashMap;
use std::collections::VecDeque;
use vstd::prelude::*;

use crate::event::{metadata_of, Event, ThreadId};

verus! {

broadcast use vstd::std_specs::hash::group_hash_axioms;

/// An event waiting its turn, with the sequence number and thread it was recorded with.
pub struct ScheduledEvent {
    pub sequence: u64,
    pub thread_id: ThreadId,
    pub event: Event,
}

/// The state of a thread during controlled replay.
#[derive(Debug, Clone, Copy, PartialEq, Eq, Structural)]
pub enum ThreadState {
    Ready,
    Running,
    Blocked,
    Completed,
}

/// The queue entry for an event.
pub open spec fn scheduled(e: Event) -> ScheduledEvent {
    ScheduledEvent {
        sequence: metadata_of(e).sequence_number,
        thread_id: metadata_of(e).thread_id,
        event: e,
    }
}

/// Thread states after loading `events`: each thread not seen before becomes ready.
pub open spec fn states_after_load(states: Map<u64, ThreadState>, events: Seq<Event>) -> Map<u64, ThreadState>
    decreases events.len(),
{
    if events.len() == 0 {
        states
    } else {
        let s = states_after_load(states, events.drop_last());
        let t = metadata_of(events.last()).thread_id.0;
        if s.contains_key(t) {
            s
        } else {
            s.insert(t, ThreadState::Ready)
        }
    }
}

/// Loading events never changes the state of a thread already known; a thread not known
/// before is known afterwards exactly when one of the loaded events is on it, and is then
/// ready.
pub proof fn lemma_load_keeps_known_threads(states: Map<u64, ThreadState>, events: Seq<Event>)
    ensures
        forall|t: u64| #[trigger] states.contains_key(t) ==> states_after_load(states, events).contains_key(t)
            && states_after_load(states, events)[t] == states[t],
        forall|t: u64| !states.contains_key(t) ==> (#[trigger] states_after_load(states, events).contains_key(t) <==> exists|
            i: int,
        | 0 <= i < events.len() && metadata_of(#[trigger] events[i]).thread_id.0 == t),
        forall|t: u64| !states.contains_key(t) && #[trigger] states_after_load(states, events).contains_key(t)
            ==> states_after_load(states, events)[t] == ThreadState::Ready,
    decreases events.len(),
{
    if events.len() > 0 {
        let prev = events.drop_last();
        lemma_load_keeps_known_threads(states, prev);
        let s = states_after_load(states, prev);
        let u = metadata_of(events.last()).thread_id.0;
        assert forall|t: u64| !states.contains_key(t) implies (#[trigger] states_after_load(states, events).contains_key(
            t,
        ) <==> exists|i: int| 0 <= i < events.len() && metadata_of(#[trigger] events[i]).thread_id.0 == t) by {
            if states_after_load(states, events).contains_key(t) {
                if s.contains_key(t) {
                    let i = choose|i: int| 0 <= i < prev.len() && metadata_of(#[trigger] prev[i]).thread_id.0 == t;
                    assert(events[i] == prev[i]);
                } else {
                    assert(t == u);
                    assert(events[events.len() - 1] == events.last());
                }
            }
            if exists|i: int| 0 <= i < events.len() && metadata_of(#[trigger] events[i]).thread_id.0 == t {
                let i = choose|i: int| 0 <= i < events.len() && metadata_of(#[trigger] events[i]).thread_id.0 == t;
                if i < events.len() - 1 {
                    assert(prev[i] == events[i]);
                    assert(s.contains_key(t));
                }
            }
        }
    }
}

/// Every queued entry carries the sequence number and thread of its own event.
pub open spec fn queue_consistent(queue: Seq<ScheduledEvent>) -> bool {
    forall|i: int| 0 <= i < queue.len() ==> #[trigger] queue[i] == scheduled(queue[i].event)
}

/// The thread is marked blocked or completed.
pub open spec fn blocks(states: Map<u64, ThreadState>, t: u64) -> bool {
    states.contains_key(t) && (states[t] == ThreadState::Blocked || states[t] == ThreadState::Completed)
}

/// One `next_event` call: the queue and thread states after it, and the event handed out.
pub open spec fn next_step(queue: Seq<ScheduledEvent>, states: Map<u64, ThreadState>) -> (
    Seq<ScheduledEvent>,
    Map<u64, ThreadState>,
    Option<Event>,
) {
    if queue.len() > 0 {
        (queue.drop_first(), states.insert(queue[0].thread_id.0, ThreadState::Running), Some(queue[0].event))
    } else {
        (queue, states, None)
    }
}

/// The queue and thread states after `k` `next_event` calls.
pub open spec fn after_steps(queue: Seq<ScheduledEvent>, states: Map<u64, ThreadState>, k: nat) -> (
    Seq<ScheduledEvent>,
    Map<u64, ThreadState>,
)
    decreases k,
{
    if k == 0 {
        (queue, states)
    } else {
        let (q, st) = after_steps(queue, states, (k - 1) as nat);
        let (q2, st2, _) = next_step(q, st);
        (q2, st2)
    }
}

/// A thread marked completed stays blocked while the events handed out belong to other
/// threads, and is running again once one of its own events is handed out.
pub proof fn lemma_completed_until_own_event(
    queue: Seq<ScheduledEvent>,
    states: Map<u64, ThreadState>,
    t: u64,
    k: nat,
)
    requires
        queue_consistent(queue),
        states.contains_key(t) && states[t] == ThreadState::Completed,
        k <= queue.len(),
        forall|i: int| 0 <= i < k ==> metadata_of((#[trigger] queue[i]).event).thread_id.0 != t,
    ensures
        after_steps(queue, states, k).0 == queue.skip(k as int),
        blocks(after_steps(queue, states, k).1, t),
        after_steps(queue, states, k).1[t] == ThreadState::Completed,
        k < queue.len() && metadata_of(queue[k as int].event).thread_id.0 == t ==> {
            let (q, st, e) = next_step(after_steps(queue, states, k).0, after_steps(queue, states, k).1);
            &&& e == Some(queue[k as int].event)
            &&& !blocks(st, t)
        },
    decreases k,
{
    if k > 0 {
        lemma_completed_until_own_event(queue, states, t, (k - 1) as nat);
        let (q, st) = after_steps(queue, states, (k - 1) as nat);
        assert(q[0] == queue[k - 1]);
        assert(queue[k - 1] == scheduled(queue[k - 1].event));
        assert(q.drop_first() =~= queue.skip(k as int));
    } else {
        assert(queue.skip(0) =~= queue);
    }
    if k < queue.len() {
        let (q, st) = after_steps(queue, states, k);
        assert(q[0] == queue[k as int]);
        assert(queue[k as int] == scheduled(queue[k as int].event));
    }
}

/// Controlled scheduler for deterministic replay
pub struct ControlledScheduler {
    scheduled_events: VecDeque<ScheduledEvent>,
    thread_states: HashMap<u64, ThreadState>,
}

impl ControlledScheduler {
    /// Queued entries always match their events.
    #[verifier::type_invariant]
    spec fn entries_match_events(&self) -> bool {
        queue_consistent(self.scheduled_events@)
    }

    pub closed spec fn spec_queue(&self) -> Seq<ScheduledEvent> {
        self.scheduled_events@
    }

    pub closed spec fn spec_states(&self) -> Map<u64, ThreadState> {
        self.thread_states@
    }

    pub fn new() -> (r: Self)
        ensures
            r.spec_queue() == Seq::<ScheduledEvent>::empty(),
            r.spec_states() == Map::<u64, ThreadState>::empty(),
            queue_consistent(r.spec_queue()),
    {
        ControlledScheduler { scheduled_events: VecDeque::new(), thread_states: HashMap::new() }
    }

    /// Load events for controlled replay
    pub fn load_events(&mut self, events: Vec<Event>)
        ensures
            final(self).spec_queue() == old(self).spec_queue() + events@.map_values(|e: Event| scheduled(e)),
            final(self).spec_states() == states_after_load(old(self).spec_states(), events@),
            queue_consistent(final(self).spec_queue()),
            forall|t: u64| #[trigger] old(self).spec_states().contains_key(t) ==> final(self).spec_states().contains_key(t)
                && final(self).spec_states()[t] == old(self).spec_states()[t],
    {
        proof {
            use_type_invariant(&*self);
            lemma_load_keeps_known_threads(self.thread_states@, events@);
        }
        let mut queue: VecDeque<ScheduledEvent> = VecDeque::new();
        let mut states: HashMap<u64, ThreadState> = HashMap::new();
        std::mem::swap(&mut queue, &mut self.scheduled_events);
        std::mem::swap(&mut states, &mut self.thread_states);
        let ghost all = events@;
        let ghost start_queue = queue@;
        let ghost start_states = states@;
        for event in it: events.into_iter()
            invariant
                it.seq() == all,
                queue@ == start_queue + all.subrange(0, it.index()).map_values(|e: Event| scheduled(e)),
                states@ == states_after_load(start_states, all.subrange(0, it.index())),
                queue_consistent(queue@),
        {
            let ghost i = it.index();
            assert(event == all[i]);
            let thread_id = event.metadata().thread_id;
            let sequence = event.metadata().sequence_number;
            queue.push_back(ScheduledEvent { sequence, thread_id, event });
            if !states.contains_key(&thread_id.0) {
                states.insert(thread_id.0, ThreadState::Ready);
            }
            proof {
                let prefix = all.subrange(0, i + 1);
                assert(prefix.drop_last() =~= all.subrange(0, i));
                assert(prefix.last() == all[i]);
                assert(all.subrange(0, i + 1).map_values(|e: Event| scheduled(e)) =~= all.subrange(0, i).map_values(
                    |e: Event| scheduled(e),
                ).push(scheduled(all[i])));
                assert(queue@ =~= start_queue + all.subrange(0, i + 1).map_values(|e: Event| scheduled(e)));
            }
        }
        assert(all.subrange(0, all.len() as int) =~= all);
        self.scheduled_events = queue;
        self.thread_states = states;
    }

    /// Get the next event to execute
    pub fn next_event(&mut self) -> (r: Option<Event>)
        ensures
            (final(self).spec_queue(), final(self).spec_states(), r) == next_step(
                old(self).spec_queue(),
                old(self).spec_states(),
            ),
            queue_consistent(final(self).spec_queue()),
            r matches Some(e) ==> {
                &&& final(self).spec_states().contains_key(metadata_of(e).thread_id.0)
                &&& final(self).spec_states()[metadata_of(e).thread_id.0] == ThreadState::Running
            },
            old(self).spec_queue().len() > 0 ==> {
                let first = old(self).spec_queue()[0];
                &&& r == Some(first.event)
                &&& final(self).spec_queue() == old(self).spec_queue().drop_first()
                &&& final(self).spec_states() == old(self).spec_states().insert(first.thread_id.0, ThreadState::Running)
            },
            old(self).spec_queue().len() == 0 ==> {
                &&& r is None
                &&& final(self).spec_queue() == old(self).spec_queue()
                &&& final(self).spec_states() == old(self).spec_states()
            },
    {
        proof { use_type_invariant(&*self); }
        let mut queue: VecDeque<ScheduledEvent> = VecDeque::new();
        let mut states: HashMap<u64, ThreadState> = HashMap::new();
        std::mem::swap(&mut queue, &mut self.scheduled_events);
        std::mem::swap(&mut states, &mut self.thread_states);
        let r = match queue.pop_front() {
            Some(entry) => {
                states.insert(entry.thread_id.0, ThreadState::Running);
                assert(queue@ =~= old(self).spec_queue().drop_first());
                assert(entry == scheduled(entry.event));
                Some(entry.event)
            },
            None => None,
        };
        assert(queue_consistent(queue@));
        self.scheduled_events = queue;
        self.thread_states = states;
        r
    }

    /// Check if a thread should be blocked
    pub fn should_block(&self, thread_id: ThreadId) -> (r: bool)
        ensures
            r == blocks(self.spec_states(), thread_id.0),
    {
        match self.thread_states.get(&thread_id.0) {
            Some(ThreadState::Blocked) | Some(ThreadState::Completed) => true,
            _ => false,
        }
    }

    /// Mark a thread as completed
    pub fn mark_completed(&mut self, thread_id: ThreadId)
        ensures
            final(self).spec_queue() == old(self).spec_queue(),
            final(self).spec_states() == old(self).spec_states().insert(thread_id.0, ThreadState::Completed),
            queue_consistent(final(self).spec_queue()),
    {
        proof { use_type_invariant(&*self); }
        let mut states: HashMap<u64, ThreadState> = HashMap::new();
        std::mem::swap(&mut states, &mut self.thread_states);
        states.insert(thread_id.0, ThreadState::Completed);
        self.thread_states = states;
    }
}

impl Default for ControlledScheduler {
    fn default() -> (r: Self)
        ensures
            r.spec_queue() == Seq::<ScheduledEvent>::empty(),
            r.spec_states() == Map::<u64, ThreadState>::empty(),
            queue_consistent(r.spec_queue()),
    {
        Self::new()
    }
}

} // verus!
