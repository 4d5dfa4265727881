use std::collections::HashMap;
use vstd::prelude::*;

use crate::event::{event_type_name, metadata_of, Event, ThreadId};
use crate::scheduler::DeterministicScheduler;
use crate::trace_log::TraceLog;

verus! {

broadcast use vstd::std_specs::hash::group_hash_axioms;

/// The little-endian bytes of the lowest `k` bytes of `n`.
pub open spec fn le_bytes(n: nat, k: nat) -> Seq<u8>
    decreases k,
{
    if k == 0 {
        Seq::empty()
    } else {
        seq![(n % 256) as u8] + le_bytes(n / 256, (k - 1) as nat)
    }
}

/// `le_bytes(n, k)` is `k` bytes long, and its byte `i` is digit `i` of `n` in base 256, so a
/// timestamp's eight bytes spell its value modulo 2^64, least significant first.
pub proof fn lemma_le_bytes_digits(n: nat, k: nat)
    ensures
        le_bytes(n, k).len() == k,
        forall|i: int| 0 <= i < k ==> #[trigger] le_bytes(n, k)[i] == ((n as int / vstd::arithmetic::power::pow(256, i as nat)) % 256) as u8,
    decreases k,
{
    if k > 0 {
        lemma_le_bytes_digits(n / 256, (k - 1) as nat);
        assert forall|i: int| 0 <= i < k implies #[trigger] le_bytes(n, k)[i] == ((n as int / vstd::arithmetic::power::pow(256, i as nat)) % 256) as u8 by {
            if i == 0 {
                assert(vstd::arithmetic::power::pow(256, 0) == 1) by {
                    reveal(vstd::arithmetic::power::pow);
                }
            } else {
                let d = vstd::arithmetic::power::pow(256, (i - 1) as nat);
                vstd::arithmetic::power::lemma_pow_positive(256, (i - 1) as nat);
                assert(vstd::arithmetic::power::pow(256, i as nat) == 256 * d) by {
                    reveal(vstd::arithmetic::power::pow);
                }
                vstd::arithmetic::div_mod::lemma_div_denominator(n as int, 256, d);
                assert(le_bytes(n, k)[i] == le_bytes(n / 256, (k - 1) as nat)[i - 1]);
                assert((n / 256) as int == n as int / 256);
            }
        }
    }
}

/// The nondeterministic inputs that a run of events captured, by sequence number: the bytes
/// of each `RandomBytes` event and the eight little-endian bytes of each `Timestamp`; a
/// later event with the same sequence number replaces an earlier one.
pub open spec fn inputs_of(events: Seq<Event>) -> Map<u64, Seq<u8>>
    decreases events.len(),
{
    if events.len() == 0 {
        Map::empty()
    } else {
        let m = inputs_of(events.drop_last());
        match events.last() {
            Event::RandomBytes { metadata, bytes } => m.insert(metadata.sequence_number, bytes@),
            Event::Timestamp { metadata, wall_clock_ns } => m.insert(
                metadata.sequence_number,
                le_bytes(wall_clock_ns as nat, 8),
            ),
            _ => m,
        }
    }
}

/// A map of byte vectors holds exactly the given byte sequences.
pub open spec fn holds_inputs(m: Map<u64, Vec<u8>>, inputs: Map<u64, Seq<u8>>) -> bool {
    &&& m.dom() == inputs.dom()
    &&& forall|k: u64| #[trigger] m.contains_key(k) ==> m[k]@ == inputs[k]
}

/// The sequence number under which an event records a nondeterministic input, if it records one.
pub open spec fn input_sequence(e: Event) -> Option<u64> {
    match e {
        Event::RandomBytes { metadata, .. } => Some(metadata.sequence_number),
        Event::Timestamp { metadata, .. } => Some(metadata.sequence_number),
        _ => None,
    }
}

/// The captured inputs are keyed by exactly the sequence numbers of the `RandomBytes` and
/// `Timestamp` events; under each, the input of the last such event with that number: all the
/// bytes of a `RandomBytes` event, whatever their number, or the eight little-endian bytes of
/// a `Timestamp`'s wall-clock reading.
pub proof fn lemma_inputs_hold_last_recorded(events: Seq<Event>, s: u64, i: int)
    ensures
        inputs_of(events).contains_key(s) <==> exists|j: int| 0 <= j < events.len() && input_sequence(#[trigger] events[j]) == Some(s),
        0 <= i < events.len() && input_sequence(events[i]) == Some(s) && (forall|j: int| i < j < events.len()
            ==> input_sequence(#[trigger] events[j]) != Some(s)) ==> inputs_of(events).contains_key(s) && match events[i] {
            Event::RandomBytes { bytes, .. } => inputs_of(events)[s] == bytes@,
            Event::Timestamp { wall_clock_ns, .. } => inputs_of(events)[s] == le_bytes(wall_clock_ns as nat, 8),
            _ => false,
        },
    decreases events.len(),
{
    if events.len() > 0 {
        let prev = events.drop_last();
        let last = events.last();
        lemma_inputs_hold_last_recorded(prev, s, i);
        assert(events[events.len() - 1] == last);
        if exists|j: int| 0 <= j < events.len() && input_sequence(#[trigger] events[j]) == Some(s) {
            let j = choose|j: int| 0 <= j < events.len() && input_sequence(#[trigger] events[j]) == Some(s);
            if j < events.len() - 1 {
                assert(prev[j] == events[j]);
            }
        }
        if inputs_of(prev).contains_key(s) {
            let j = choose|j: int| 0 <= j < prev.len() && input_sequence(#[trigger] prev[j]) == Some(s);
            assert(events[j] == prev[j]);
        }
        if 0 <= i < events.len() - 1 && input_sequence(events[i]) == Some(s) && (forall|j: int|
            i < j < events.len() ==> input_sequence(#[trigger] events[j]) != Some(s)) {
            assert(prev[i] == events[i]);
            assert forall|j: int| i < j < prev.len() implies input_sequence(#[trigger] prev[j]) != Some(s) by {
                assert(prev[j] == events[j]);
            }
            assert(input_sequence(last) != Some(s));
        }
    }
}

/// The event's sequence number lies in `[start_seq, end_seq]`.
pub open spec fn in_range(e: Event, start_seq: u64, end_seq: u64) -> bool {
    start_seq <= metadata_of(e).sequence_number <= end_seq
}

/// The event was recorded on thread `t`.
pub open spec fn on_thread(e: Event, t: u64) -> bool {
    metadata_of(e).thread_id.0 == t
}

/// The position of the first event with the given sequence number, or -1.
pub open spec fn first_with_sequence(events: Seq<Event>, sequence_number: u64) -> int
    decreases events.len(),
{
    if events.len() == 0 {
        -1
    } else if metadata_of(events[0]).sequence_number == sequence_number {
        0
    } else {
        let r = first_with_sequence(events.drop_first(), sequence_number);
        if r < 0 { -1 } else { r + 1 }
    }
}

/// One step forward from position `pos`: the new position and the event passed over.
pub open spec fn step_forward(events: Seq<Event>, pos: nat) -> (nat, Option<Event>) {
    if pos < events.len() {
        (pos + 1, Some(events[pos as int]))
    } else {
        (pos, None)
    }
}

/// One step back from position `pos`: the new position and the event stepped back onto.
pub open spec fn step_back(events: Seq<Event>, pos: nat) -> (nat, Option<Event>) {
    if pos > 0 {
        ((pos - 1) as nat, Some(events[pos - 1]))
    } else {
        (pos, None)
    }
}

/// The event an optional reference points to.
pub open spec fn deref_event(r: Option<&Event>) -> Option<Event> {
    match r {
        Some(e) => Some(*e),
        None => None,
    }
}

/// Stepping back right after stepping forward returns to the same position and the same
/// event; stepping forward right after stepping back does too.
pub proof fn lemma_steps_undo_each_other(events: Seq<Event>, pos: nat)
    ensures
        pos < events.len() ==> step_back(events, step_forward(events, pos).0) == (pos, step_forward(events, pos).1),
        0 < pos <= events.len() ==> step_forward(events, step_back(events, pos).0) == (pos, step_back(events, pos).1),
{
}

/// A call that moves the replay position: `next_event`, `previous_event`, `seek_to` or `reset`.
pub enum ReplayMove {
    Next,
    Previous,
    Seek { sequence_number: u64 },
    Reset,
}

/// The replay position after one call made at position `pos`.
pub open spec fn move_position(events: Seq<Event>, pos: nat, m: ReplayMove) -> nat {
    match m {
        ReplayMove::Next => step_forward(events, pos).0,
        ReplayMove::Previous => step_back(events, pos).0,
        ReplayMove::Seek { sequence_number } => {
            let j = first_with_sequence(events, sequence_number);
            if j >= 0 { j as nat } else { pos }
        },
        ReplayMove::Reset => 0,
    }
}

/// The replay positions after each call of a run that starts at position `pos`, in order.
pub open spec fn positions_after(events: Seq<Event>, pos: nat, moves: Seq<ReplayMove>) -> Seq<nat>
    decreases moves.len(),
{
    if moves.len() == 0 {
        Seq::empty()
    } else {
        let next = move_position(events, pos, moves[0]);
        seq![next] + positions_after(events, next, moves.drop_first())
    }
}

proof fn lemma_first_with_sequence_bound(events: Seq<Event>, sequence_number: u64)
    ensures
        -1 <= first_with_sequence(events, sequence_number) < events.len(),
    decreases events.len(),
{
    if events.len() > 0 {
        lemma_first_with_sequence_bound(events.drop_first(), sequence_number);
    }
}

/// Whatever calls a replay makes, its position never passes the end of the events, so it is
/// complete exactly when the position is at the end.
pub proof fn lemma_positions_stay_in_bounds(events: Seq<Event>, pos: nat, moves: Seq<ReplayMove>)
    requires
        pos <= events.len(),
    ensures
        positions_after(events, pos, moves).len() == moves.len(),
        forall|i: int| 0 <= i < moves.len() ==> #[trigger] positions_after(events, pos, moves)[i] <= events.len(),
    decreases moves.len(),
{
    if moves.len() > 0 {
        if let ReplayMove::Seek { sequence_number } = moves[0] {
            lemma_first_with_sequence_bound(events, sequence_number);
        }
        let next = move_position(events, pos, moves[0]);
        lemma_positions_stay_in_bounds(events, next, moves.drop_first());
        let ps = positions_after(events, pos, moves);
        assert forall|i: int| 0 <= i < moves.len() implies #[trigger] ps[i] <= events.len() by {
            if i > 0 {
                assert(ps[i] == positions_after(events, next, moves.drop_first())[i - 1]);
            }
        }
    }
}

/// The first event with the given sequence number, if any.
pub open spec fn first_event_with(events: Seq<Event>, sequence_number: u64) -> Option<Event> {
    let j = first_with_sequence(events, sequence_number);
    if 0 <= j < events.len() {
        Some(events[j])
    } else {
        None
    }
}

/// The number of kinds of event.
pub const EVENT_KINDS: usize = 15;

/// The position of an event's variant in the declaration of `Event`.
pub open spec fn kind_of(e: Event) -> nat {
    match e {
        Event::FunctionCall { .. } => 0,
        Event::FunctionReturn { .. } => 1,
        Event::MemoryWrite { .. } => 2,
        Event::Syscall { .. } => 3,
        Event::ThreadSwitch { .. } => 4,
        Event::NetworkIO { .. } => 5,
        Event::GarbageCollection { .. } => 6,
        Event::ThreadCreate { .. } => 7,
        Event::ThreadExit { .. } => 8,
        Event::ProcessFork { .. } => 9,
        Event::ProcessExec { .. } => 10,
        Event::MutexLock { .. } => 11,
        Event::MutexUnlock { .. } => 12,
        Event::RandomBytes { .. } => 13,
        Event::Timestamp { .. } => 14,
    }
}

/// The position of an event's variant in the declaration of `Event`.
pub fn event_kind(e: &Event) -> (r: usize)
    ensures
        r == kind_of(*e),
        r < EVENT_KINDS,
{
    match e {
        Event::FunctionCall { .. } => 0,
        Event::FunctionReturn { .. } => 1,
        Event::MemoryWrite { .. } => 2,
        Event::Syscall { .. } => 3,
        Event::ThreadSwitch { .. } => 4,
        Event::NetworkIO { .. } => 5,
        Event::GarbageCollection { .. } => 6,
        Event::ThreadCreate { .. } => 7,
        Event::ThreadExit { .. } => 8,
        Event::ProcessFork { .. } => 9,
        Event::ProcessExec { .. } => 10,
        Event::MutexLock { .. } => 11,
        Event::MutexUnlock { .. } => 12,
        Event::RandomBytes { .. } => 13,
        Event::Timestamp { .. } => 14,
    }
}

/// The type name of the events of kind `k`.
pub fn event_kind_name(k: usize) -> (r: &'static str)
    requires
        k < EVENT_KINDS,
    ensures
        forall|e: Event| kind_of(e) == k ==> r@ == #[trigger] event_type_name(e),
{
    match k {
        0 => "FunctionCall",
        1 => "FunctionReturn",
        2 => "MemoryWrite",
        3 => "Syscall",
        4 => "ThreadSwitch",
        5 => "NetworkIO",
        6 => "GarbageCollection",
        7 => "ThreadCreate",
        8 => "ThreadExit",
        9 => "ProcessFork",
        10 => "ProcessExec",
        11 => "MutexLock",
        12 => "MutexUnlock",
        13 => "RandomBytes",
        _ => "Timestamp",
    }
}

/// How many of the sequence numbers 1 to `n` have a first event of kind `k`.
pub open spec fn sampled_kind_count(events: Seq<Event>, n: nat, k: nat) -> nat
    decreases n,
{
    if n == 0 {
        0
    } else {
        sampled_kind_count(events, (n - 1) as nat, k) + (if first_event_with(events, n as u64) matches Some(
            e,
        ) && kind_of(e) == k {
            1nat
        } else {
            0nat
        })
    }
}

/// How many of the sequence numbers 1 to `n` have a first event on thread `t`.
pub open spec fn sampled_thread_count(events: Seq<Event>, n: nat, t: u64) -> nat
    decreases n,
{
    if n == 0 {
        0
    } else {
        sampled_thread_count(events, (n - 1) as nat, t) + (if first_event_with(events, n as u64) matches Some(
            e,
        ) && on_thread(e, t) {
            1nat
        } else {
            0nat
        })
    }
}

/// The first events of the sequence numbers 1 to `n` whose type is named `name`, in order.
pub open spec fn sampled_of_type(events: Seq<Event>, n: nat, name: Seq<char>) -> Seq<Event>
    decreases n,
{
    if n == 0 {
        Seq::empty()
    } else {
        let before = sampled_of_type(events, (n - 1) as nat, name);
        match first_event_with(events, n as u64) {
            Some(e) => if event_type_name(e) == name {
                before.push(e)
            } else {
                before
            },
            None => before,
        }
    }
}

/// Event `i` carries sequence number `i + 1`: the numbering that recording gives a trace.
pub open spec fn numbered_from_one(events: Seq<Event>) -> bool {
    forall|i: int| 0 <= i < events.len() ==> #[trigger] metadata_of(events[i]).sequence_number == i + 1
}

/// The event is of kind `k`.
pub open spec fn of_kind(k: nat) -> spec_fn(Event) -> bool {
    |e: Event| kind_of(e) == k
}

/// The event's type is called `name`.
pub open spec fn named(name: Seq<char>) -> spec_fn(Event) -> bool {
    |e: Event| event_type_name(e) == name
}

proof fn lemma_first_with_numbered(events: Seq<Event>, base: int, s: u64)
    requires
        forall|i: int| 0 <= i < events.len() ==> #[trigger] metadata_of(events[i]).sequence_number == base + i,
        base <= s < base + events.len(),
    ensures
        first_with_sequence(events, s) == s - base,
    decreases events.len(),
{
    if s != base {
        let rest = events.drop_first();
        assert forall|i: int| 0 <= i < rest.len() implies #[trigger] metadata_of(rest[i]).sequence_number == (base + 1) + i by {
            assert(rest[i] == events[i + 1]);
        }
        assert(metadata_of(events[0]).sequence_number == base);
        lemma_first_with_numbered(rest, base + 1, s);
    } else {
        assert(metadata_of(events[0]).sequence_number == base);
    }
}

proof fn lemma_first_event_numbered(events: Seq<Event>, s: u64)
    requires
        numbered_from_one(events),
        1 <= s <= events.len(),
    ensures
        first_event_with(events, s) == Some(events[s - 1]),
{
    assert forall|i: int| 0 <= i < events.len() implies #[trigger] metadata_of(events[i]).sequence_number == 1 + i by {}
    lemma_first_with_numbered(events, 1, s);
}

/// In a trace numbered 1, 2, ... in order, the count of a kind over the first `m` sequence
/// numbers is the number of the first `m` events that are of that kind; over the whole trace,
/// it is the number of its events of that kind.
pub proof fn lemma_kind_count_of_numbered_trace(events: Seq<Event>, m: nat, k: nat)
    requires
        numbered_from_one(events),
        m <= events.len(),
    ensures
        sampled_kind_count(events, m, k) == events.take(m as int).filter(of_kind(k)).len(),
        sampled_kind_count(events, events.len(), k) == events.filter(of_kind(k)).len(),
{
    lemma_kind_count_prefix(events, m, k);
    lemma_kind_count_prefix(events, events.len(), k);
    assert(events.take(events.len() as int) =~= events);
}

proof fn lemma_kind_count_prefix(events: Seq<Event>, m: nat, k: nat)
    requires
        numbered_from_one(events),
        m <= events.len(),
    ensures
        sampled_kind_count(events, m, k) == events.take(m as int).filter(of_kind(k)).len(),
    decreases m,
{
    broadcast use Seq::lemma_filter_push;

    if m > 0 {
        lemma_kind_count_prefix(events, (m - 1) as nat, k);
        assert(metadata_of(events[m - 1]).sequence_number == m);
        lemma_first_event_numbered(events, m as u64);
        assert(events.take(m as int) =~= events.take(m - 1).push(events[m - 1]));
    } else {
        assert(events.take(0) =~= Seq::<Event>::empty());
        reveal(Seq::filter);
    }
}

/// The event was recorded on thread `t`.
pub open spec fn on_thread_of(t: u64) -> spec_fn(Event) -> bool {
    |e: Event| on_thread(e, t)
}

/// In a trace numbered 1, 2, ... in order, the count for a thread is the number of its events
/// on that thread.
pub proof fn lemma_thread_count_of_numbered_trace(events: Seq<Event>, t: u64)
    requires
        numbered_from_one(events),
    ensures
        sampled_thread_count(events, events.len(), t) == events.filter(on_thread_of(t)).len(),
{
    lemma_thread_count_prefix(events, events.len(), t);
    assert(events.take(events.len() as int) =~= events);
}

proof fn lemma_thread_count_prefix(events: Seq<Event>, m: nat, t: u64)
    requires
        numbered_from_one(events),
        m <= events.len(),
    ensures
        sampled_thread_count(events, m, t) == events.take(m as int).filter(on_thread_of(t)).len(),
    decreases m,
{
    broadcast use Seq::lemma_filter_push;

    if m > 0 {
        lemma_thread_count_prefix(events, (m - 1) as nat, t);
        assert(metadata_of(events[m - 1]).sequence_number == m);
        lemma_first_event_numbered(events, m as u64);
        assert(events.take(m as int) =~= events.take(m - 1).push(events[m - 1]));
    } else {
        assert(events.take(0) =~= Seq::<Event>::empty());
        reveal(Seq::filter);
    }
}

/// In a trace numbered 1, 2, ... in order, listing the events of one type over the first `m`
/// sequence numbers gives exactly the first `m` events that have that type, in order; with
/// `m` the whole trace, all its events of that type.
pub proof fn lemma_listing_of_numbered_trace(events: Seq<Event>, m: nat, name: Seq<char>)
    requires
        numbered_from_one(events),
        m <= events.len(),
    ensures
        sampled_of_type(events, m, name) == events.take(m as int).filter(named(name)),
        sampled_of_type(events, events.len(), name) == events.filter(named(name)),
{
    lemma_listing_prefix(events, m, name);
    lemma_listing_prefix(events, events.len(), name);
    assert(events.take(events.len() as int) =~= events);
}

proof fn lemma_listing_prefix(events: Seq<Event>, m: nat, name: Seq<char>)
    requires
        numbered_from_one(events),
        m <= events.len(),
    ensures
        sampled_of_type(events, m, name) == events.take(m as int).filter(named(name)),
    decreases m,
{
    broadcast use Seq::lemma_filter_push;

    if m > 0 {
        lemma_listing_prefix(events, (m - 1) as nat, name);
        assert(metadata_of(events[m - 1]).sequence_number == m);
        lemma_first_event_numbered(events, m as u64);
        assert(events.take(m as int) =~= events.take(m - 1).push(events[m - 1]));
    } else {
        assert(events.take(0) =~= Seq::<Event>::empty());
        reveal(Seq::filter);
    }
}

/// Why a replay request failed.
#[derive(Debug, Clone, Copy, PartialEq, Eq, Structural)]
pub enum ReplayError {
    /// No event has the sequence number asked for.
    EventNotFound,
}

impl ReplayError {
    /// A description of the error.
    pub fn message(&self) -> (r: &'static str)
        ensures
            r@ == "Event not found"@,
    {
        match self {
            ReplayError::EventNotFound => "Event not found",
        }
    }
}

fn le_bytes_vec(n: u64) -> (r: Vec<u8>)
    ensures
        r@ == le_bytes(n as nat, 8),
{
    let mut r: Vec<u8> = Vec::new();
    let mut w = n;
    let mut k: usize = 0;
    while k < 8
        invariant
            k <= 8,
            r@ + le_bytes(w as nat, (8 - k) as nat) == le_bytes(n as nat, 8),
        decreases 8 - k,
    {
        proof {
            assert(le_bytes(w as nat, (8 - k) as nat) == seq![(w % 256) as u8] + le_bytes((w / 256) as nat, (8 - k - 1) as nat));
            assert(r@ + (seq![(w % 256) as u8] + le_bytes((w / 256) as nat, (8 - k - 1) as nat)) =~= r@.push((w % 256) as u8) + le_bytes((w / 256) as nat, (8 - k - 1) as nat));
        }
        r.push((w % 256) as u8);
        w = w / 256;
        k = k + 1;
    }
    assert(r@ + le_bytes(w as nat, 0) =~= r@);
    r
}

/// Deterministic replay engine
pub struct ReplayEngine {
    trace_log: TraceLog,
    scheduler: DeterministicScheduler,
    current_position: usize,
    events: Vec<Event>,
    nondeterministic_inputs: HashMap<u64, Vec<u8>>,
}

impl ReplayEngine {
    /// The replay position never passes the end of the events.
    #[verifier::type_invariant]
    spec fn position_in_bounds(&self) -> bool {
        self.current_position <= self.events@.len()
    }

    pub closed spec fn spec_events(&self) -> Seq<Event> {
        self.events@
    }

    pub closed spec fn spec_position(&self) -> nat {
        self.current_position as nat
    }

    pub closed spec fn spec_inputs(&self) -> Map<u64, Vec<u8>> {
        self.nondeterministic_inputs@
    }

    pub closed spec fn spec_trace_log(&self) -> TraceLog {
        self.trace_log
    }

    /// A replay of `events`, read from `trace_log`, positioned at the start.
    pub fn from_events(trace_log: TraceLog, events: Vec<Event>) -> (r: Self)
        ensures
            r.spec_events() == events@,
            r.spec_position() == 0,
            r.spec_position() <= r.spec_events().len(),
            holds_inputs(r.spec_inputs(), inputs_of(events@)),
            r.spec_trace_log() == trace_log,
    {
        let nondeterministic_inputs = Self::extract_nondeterministic_inputs(events.as_slice());
        ReplayEngine {
            trace_log,
            scheduler: DeterministicScheduler::new(),
            current_position: 0,
            events,
            nondeterministic_inputs,
        }
    }

    /// Get the next event in the replay
    pub fn next_event(&mut self) -> (r: Option<&Event>)
        ensures
            final(self).spec_events() == old(self).spec_events(),
            final(self).spec_inputs() == old(self).spec_inputs(),
            (final(self).spec_position(), deref_event(r)) == step_forward(
                old(self).spec_events(),
                old(self).spec_position(),
            ),
            final(self).spec_position() == move_position(old(self).spec_events(), old(self).spec_position(), ReplayMove::Next),
            final(self).spec_position() <= final(self).spec_events().len(),
    {
        proof {
            use_type_invariant(&*self);
        }
        if self.current_position < self.events.len() {
            let position = self.current_position;
            self.current_position = position + 1;
            Some(&self.events[position])
        } else {
            None
        }
    }

    /// Step backward in the replay
    pub fn previous_event(&mut self) -> (r: Option<&Event>)
        ensures
            final(self).spec_events() == old(self).spec_events(),
            final(self).spec_inputs() == old(self).spec_inputs(),
            (final(self).spec_position(), deref_event(r)) == step_back(
                old(self).spec_events(),
                old(self).spec_position(),
            ),
            final(self).spec_position() == move_position(
                old(self).spec_events(),
                old(self).spec_position(),
                ReplayMove::Previous,
            ),
            final(self).spec_position() <= final(self).spec_events().len(),
    {
        proof {
            use_type_invariant(&*self);
        }
        if self.current_position > 0 {
            let position = self.current_position - 1;
            self.current_position = position;
            Some(&self.events[position])
        } else {
            None
        }
    }

    /// Jump to a specific event by sequence number
    pub fn seek_to(&mut self, sequence_number: u64) -> (r: Result<&Event, ReplayError>)
        ensures
            final(self).spec_events() == old(self).spec_events(),
            final(self).spec_inputs() == old(self).spec_inputs(),
            ({
                let j = first_with_sequence(old(self).spec_events(), sequence_number);
                match r {
                    Ok(e) => {
                        &&& 0 <= j < old(self).spec_events().len()
                        &&& *e == old(self).spec_events()[j]
                        &&& final(self).spec_position() == j
                    },
                    Err(err) => {
                        &&& j == -1
                        &&& err == ReplayError::EventNotFound
                        &&& final(self).spec_position() == old(self).spec_position()
                    },
                }
            }),
            final(self).spec_position() == move_position(
                old(self).spec_events(),
                old(self).spec_position(),
                ReplayMove::Seek { sequence_number },
            ),
            final(self).spec_position() <= final(self).spec_events().len(),
    {
        proof {
            use_type_invariant(&*self);
        }
        match self.position_of(sequence_number) {
            Some(position) => {
                self.current_position = position;
                Ok(&self.events[position])
            },
            None => Err(ReplayError::EventNotFound),
        }
    }

    fn position_of(&self, sequence_number: u64) -> (r: Option<usize>)
        ensures
            match r {
                Some(j) => j < self.spec_events().len() && j == first_with_sequence(self.spec_events(), sequence_number),
                None => first_with_sequence(self.spec_events(), sequence_number) == -1,
            },
    {
        let n = self.events.len();
        let mut i: usize = 0;
        assert(self.events@.subrange(0, n as int) =~= self.events@);
        while i < n
            invariant
                n == self.events@.len(),
                i <= n,
                first_with_sequence(self.events@, sequence_number) == {
                    let r = first_with_sequence(self.events@.subrange(i as int, n as int), sequence_number);
                    if r < 0 { -1 } else { r + i }
                },
            decreases n - i,
        {
            let ghost tail = self.events@.subrange(i as int, n as int);
            assert(tail[0] == self.events@[i as int]);
            assert(tail.drop_first() =~= self.events@.subrange(i + 1, n as int));
            if self.events[i].metadata().sequence_number == sequence_number {
                return Some(i);
            }
            i = i + 1;
        }
        assert(self.events@.subrange(n as int, n as int).len() == 0);
        None
    }

    /// The first event with the given sequence number, if any.
    pub fn first_event_with_sequence(&self, sequence_number: u64) -> (r: Option<&Event>)
        ensures
            deref_event(r) == first_event_with(self.spec_events(), sequence_number),
    {
        match self.position_of(sequence_number) {
            Some(position) => Some(&self.events[position]),
            None => None,
        }
    }

    /// How many of the sequence numbers 1 to the number of events have a first event of each
    /// kind, indexed by `event_kind`.
    pub fn type_counts(&self) -> (r: Vec<usize>)
        ensures
            r@.len() == EVENT_KINDS,
            forall|k: int| 0 <= k < EVENT_KINDS ==> #[trigger] r@[k] == sampled_kind_count(
                self.spec_events(),
                self.spec_events().len(),
                k as nat,
            ),
            numbered_from_one(self.spec_events()) ==> forall|k: int| 0 <= k < EVENT_KINDS ==> #[trigger] r@[k]
                == self.spec_events().filter(of_kind(k as nat)).len(),
    {
        proof {
            if numbered_from_one(self.spec_events()) {
                assert forall|k: nat| k < EVENT_KINDS implies #[trigger] sampled_kind_count(self.spec_events(), self.spec_events().len(), k)
                    == self.spec_events().filter(of_kind(k)).len() by {
                    lemma_kind_count_of_numbered_trace(self.spec_events(), 0, k);
                }
            }
        }
        let mut counts: Vec<usize> = Vec::new();
        for k in 0..EVENT_KINDS
            invariant
                counts@.len() == k,
                forall|j: int| 0 <= j < k ==> #[trigger] counts@[j] == 0,
        {
            counts.push(0);
        }
        let n = self.events.len();
        for i in 0..n
            invariant
                n == self.events@.len(),
                counts@.len() == EVENT_KINDS,
                forall|k: int| 0 <= k < EVENT_KINDS ==> #[trigger] counts@[k] == sampled_kind_count(
                    self.events@,
                    i as nat,
                    k as nat,
                ) && counts@[k] <= i,
        {
            if let Some(e) = self.first_event_with_sequence(i as u64 + 1) {
                let k = event_kind(e);
                let c = counts[k];
                counts.set(k, c + 1);
            }
        }
        counts
    }

    /// How many of the sequence numbers 1 to the number of events have a first event on
    /// each thread; threads with none are absent.
    pub fn thread_counts(&self) -> (r: HashMap<u64, usize>)
        ensures
            forall|t: u64| #[trigger] r@.contains_key(t) <==> sampled_thread_count(
                self.spec_events(),
                self.spec_events().len(),
                t,
            ) > 0,
            forall|t: u64| #[trigger] r@.contains_key(t) ==> r@[t] == sampled_thread_count(
                self.spec_events(),
                self.spec_events().len(),
                t,
            ),
            numbered_from_one(self.spec_events()) ==> forall|t: u64| #[trigger] r@.contains_key(t) ==> r@[t]
                == self.spec_events().filter(on_thread_of(t)).len(),
            numbered_from_one(self.spec_events()) ==> forall|t: u64| !(#[trigger] r@.contains_key(t)) ==> self.spec_events().filter(
                on_thread_of(t),
            ).len() == 0,
    {
        proof {
            if numbered_from_one(self.spec_events()) {
                assert forall|t: u64| #[trigger] sampled_thread_count(self.spec_events(), self.spec_events().len(), t)
                    == self.spec_events().filter(on_thread_of(t)).len() by {
                    lemma_thread_count_of_numbered_trace(self.spec_events(), t);
                }
            }
        }
        let mut counts: HashMap<u64, usize> = HashMap::new();
        let n = self.events.len();
        for i in 0..n
            invariant
                n == self.events@.len(),
                forall|t: u64| #[trigger] counts@.contains_key(t) <==> sampled_thread_count(
                    self.events@,
                    i as nat,
                    t,
                ) > 0,
                forall|t: u64| #[trigger] counts@.contains_key(t) ==> counts@[t] == sampled_thread_count(
                    self.events@,
                    i as nat,
                    t,
                ) && counts@[t] <= i,
        {
            if let Some(e) = self.first_event_with_sequence(i as u64 + 1) {
                let t = e.metadata().thread_id.0;
                let c = match counts.get(&t) {
                    Some(c) => *c,
                    None => 0,
                };
                counts.insert(t, c + 1);
            }
        }
        counts
    }

    /// Among the sequence numbers 1 to `limit` (at most the number of events), the first
    /// events whose type is `event_type`, in order.
    pub fn events_of_type(&self, event_type: &str, limit: usize) -> (r: Vec<&Event>)
        ensures
            r@.map_values(|e: &Event| *e) == sampled_of_type(
                self.spec_events(),
                if limit < self.spec_events().len() { limit as nat } else { self.spec_events().len() },
                event_type@,
            ),
            numbered_from_one(self.spec_events()) ==> r@.map_values(|e: &Event| *e) == self.spec_events().take(
                if limit < self.spec_events().len() { limit as int } else { self.spec_events().len() as int },
            ).filter(named(event_type@)),
    {
        proof {
            if numbered_from_one(self.spec_events()) {
                lemma_listing_of_numbered_trace(
                    self.spec_events(),
                    if limit < self.spec_events().len() { limit as nat } else { self.spec_events().len() },
                    event_type@,
                );
            }
        }
        let n = if limit < self.events.len() { limit } else { self.events.len() };
        let wanted = String::from_str(event_type);
        let mut out: Vec<&Event> = Vec::new();
        for i in 0..n
            invariant
                n <= self.events@.len(),
                wanted@ == event_type@,
                out@.map_values(|e: &Event| *e) == sampled_of_type(self.events@, i as nat, event_type@),
        {
            let ghost before = out@.map_values(|e: &Event| *e);
            if let Some(e) = self.first_event_with_sequence(i as u64 + 1) {
                let name = String::from_str(e.event_type());
                if name == wanted {
                    out.push(e);
                    assert(out@.map_values(|e: &Event| *e) =~= before.push(*e));
                }
            }
        }
        out
    }

    /// Get the current position in the replay
    pub fn current_position(&self) -> (r: usize)
        ensures
            r == self.spec_position(),
            r <= self.spec_events().len(),
    {
        proof {
            use_type_invariant(self);
        }
        self.current_position
    }

    /// Get the total number of events
    pub fn total_events(&self) -> (r: usize)
        ensures
            r == self.spec_events().len(),
    {
        self.events.len()
    }

    /// Get a nondeterministic input by sequence number
    pub fn get_nondeterministic_input(&self, sequence: u64) -> (r: Option<&Vec<u8>>)
        ensures
            match r {
                Some(v) => self.spec_inputs().contains_key(sequence) && *v == self.spec_inputs()[sequence],
                None => !self.spec_inputs().contains_key(sequence),
            },
    {
        self.nondeterministic_inputs.get(&sequence)
    }

    /// Extract nondeterministic inputs from events
    pub fn extract_nondeterministic_inputs(events: &[Event]) -> (r: HashMap<u64, Vec<u8>>)
        ensures
            holds_inputs(r@, inputs_of(events@)),
    {
        let mut inputs: HashMap<u64, Vec<u8>> = HashMap::new();
        let n = events.len();
        for i in 0..n
            invariant
                n == events@.len(),
                holds_inputs(inputs@, inputs_of(events@.subrange(0, i as int))),
        {
            let ghost prefix = events@.subrange(0, i + 1);
            assert(prefix.drop_last() =~= events@.subrange(0, i as int));
            assert(prefix.last() == events@[i as int]);
            match &events[i] {
                Event::RandomBytes { metadata, bytes } => {
                    let copy = vstd::slice::slice_to_vec(bytes.as_slice());
                    inputs.insert(metadata.sequence_number, copy);
                },
                Event::Timestamp { metadata, wall_clock_ns } => {
                    let copy = le_bytes_vec(*wall_clock_ns);
                    inputs.insert(metadata.sequence_number, copy);
                },
                _ => {},
            }
            assert(inputs@.dom() =~= inputs_of(prefix).dom());
        }
        assert(events@.subrange(0, n as int) =~= events@);
        inputs
    }

    /// Get events in a time range
    pub fn events_in_range(&self, start_seq: u64, end_seq: u64) -> (r: Vec<&Event>)
        ensures
            r@.map_values(|e: &Event| *e) == self.spec_events().filter(|e: Event| in_range(e, start_seq, end_seq)),
    {
        let mut out: Vec<&Event> = Vec::new();
        let n = self.events.len();
        for i in 0..n
            invariant
                n == self.events@.len(),
                out@.map_values(|e: &Event| *e) == self.events@.subrange(0, i as int).filter(
                    |e: Event| in_range(e, start_seq, end_seq),
                ),
        {
            let ghost before = out@.map_values(|e: &Event| *e);
            let ghost prefix = self.events@.subrange(0, i + 1);
            proof {
                reveal_with_fuel(Seq::filter, 1);
                assert(prefix.drop_last() =~= self.events@.subrange(0, i as int));
            }
            let e = &self.events[i];
            let seq = e.metadata().sequence_number;
            if seq >= start_seq && seq <= end_seq {
                out.push(e);
                assert(out@.map_values(|e: &Event| *e) =~= before.push(*e));
            }
        }
        assert(self.events@.subrange(0, n as int) =~= self.events@);
        out
    }

    /// Get all events for a specific thread
    pub fn events_for_thread(&self, thread_id: ThreadId) -> (r: Vec<&Event>)
        ensures
            r@.map_values(|e: &Event| *e) == self.spec_events().filter(|e: Event| on_thread(e, thread_id.0)),
    {
        let mut out: Vec<&Event> = Vec::new();
        let n = self.events.len();
        for i in 0..n
            invariant
                n == self.events@.len(),
                out@.map_values(|e: &Event| *e) == self.events@.subrange(0, i as int).filter(
                    |e: Event| on_thread(e, thread_id.0),
                ),
        {
            let ghost before = out@.map_values(|e: &Event| *e);
            let ghost prefix = self.events@.subrange(0, i + 1);
            proof {
                reveal_with_fuel(Seq::filter, 1);
                assert(prefix.drop_last() =~= self.events@.subrange(0, i as int));
            }
            let e = &self.events[i];
            if e.metadata().thread_id.0 == thread_id.0 {
                out.push(e);
                assert(out@.map_values(|e: &Event| *e) =~= before.push(*e));
            }
        }
        assert(self.events@.subrange(0, n as int) =~= self.events@);
        out
    }

    /// Reset replay to the beginning
    pub fn reset(&mut self)
        ensures
            final(self).spec_events() == old(self).spec_events(),
            final(self).spec_inputs() == old(self).spec_inputs(),
            final(self).spec_position() == 0,
            final(self).spec_position() == move_position(old(self).spec_events(), old(self).spec_position(), ReplayMove::Reset),
            final(self).spec_position() <= final(self).spec_events().len(),
    {
        self.current_position = 0;
    }

    /// Check if replay is complete
    pub fn is_complete(&self) -> (r: bool)
        ensures
            r == (self.spec_position() >= self.spec_events().len()),
            r == (self.spec_position() == self.spec_events().len()),
    {
        proof {
            use_type_invariant(self);
        }
        self.current_position >= self.events.len()
    }
}

} // verus!
