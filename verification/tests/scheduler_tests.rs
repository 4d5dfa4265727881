use aevum::event::ThreadId;
use aevum::scheduler::{DeterministicScheduler, SchedulerDecision};

#[test]
fn test_scheduler_recording() {
    let mut scheduler = DeterministicScheduler::new();
    let thread1 = ThreadId(1);
    let thread2 = ThreadId(2);

    scheduler.register_thread(thread1);
    scheduler.register_thread(thread2);

    let decision1 = scheduler.schedule(thread1, 1);
    let decision2 = scheduler.schedule(thread2, 2);

    assert_eq!(decision1, SchedulerDecision::Continue);
    assert_eq!(decision2, SchedulerDecision::Continue);
    assert_eq!(scheduler.get_decisions().len(), 2);
}

#[test]
fn test_scheduler_replay() {
    let mut scheduler = DeterministicScheduler::new();
    let thread1 = ThreadId(1);

    scheduler.register_thread(thread1);
    let _ = scheduler.schedule(thread1, 1);

    let decisions = scheduler.get_decisions();

    let mut replay_scheduler = DeterministicScheduler::new();
    replay_scheduler.set_replay_mode(decisions);
    replay_scheduler.register_thread(thread1);

    let decision = replay_scheduler.schedule(thread1, 1);
    assert_eq!(decision, SchedulerDecision::Continue);
}

#[test]
fn terminated_thread_is_blocked_when_recording() {
    let mut scheduler = DeterministicScheduler::new();
    scheduler.register_thread(ThreadId(5));
    scheduler.terminate_thread(ThreadId(5));
    assert_eq!(scheduler.schedule(ThreadId(5), 1), SchedulerDecision::Block);
    let decisions = scheduler.get_decisions();
    assert_eq!(decisions.len(), 1);
    assert_eq!(decisions[0].decision, SchedulerDecision::Block);
    assert_eq!(decisions[0].reason, "recorded");
    assert_eq!(decisions[0].sequence, 1);
    assert_eq!(decisions[0].thread_id, ThreadId(5));
}

#[test]
fn unknown_thread_continues_when_recording() {
    let mut scheduler = DeterministicScheduler::new();
    assert_eq!(scheduler.schedule(ThreadId(9), 3), SchedulerDecision::Continue);
    assert_eq!(scheduler.schedule(ThreadId(9), 4), SchedulerDecision::Continue);
}

#[test]
fn replay_blocks_on_mismatch_and_keeps_the_decision() {
    let mut recorder = DeterministicScheduler::new();
    recorder.schedule(ThreadId(1), 1);
    recorder.schedule(ThreadId(2), 2);
    let mut replayer = DeterministicScheduler::new();
    replayer.set_replay_mode(recorder.get_decisions());
    // Out of order: thread 2 first is refused.
    assert_eq!(replayer.schedule(ThreadId(2), 2), SchedulerDecision::Block);
    // Wrong sequence number is refused too.
    assert_eq!(replayer.schedule(ThreadId(1), 7), SchedulerDecision::Block);
    assert_eq!(replayer.get_decisions().len(), 2);
    assert_eq!(replayer.schedule(ThreadId(1), 1), SchedulerDecision::Continue);
    assert_eq!(replayer.schedule(ThreadId(2), 2), SchedulerDecision::Continue);
    assert_eq!(replayer.get_decisions().len(), 0);
    assert_eq!(replayer.schedule(ThreadId(1), 3), SchedulerDecision::Block);
}

#[test]
fn replay_reproduces_recorded_decisions() {
    let mut recorder = DeterministicScheduler::new();
    recorder.register_thread(ThreadId(1));
    recorder.register_thread(ThreadId(2));
    recorder.terminate_thread(ThreadId(3));
    let calls = [(1u64, 1u64), (3, 2), (2, 3), (1, 4), (3, 5)];
    let mut recorded = Vec::new();
    for (t, s) in calls {
        recorded.push(recorder.schedule(ThreadId(t), s));
    }
    let mut replayer = DeterministicScheduler::default();
    replayer.set_replay_mode(recorder.get_decisions());
    let mut replayed = Vec::new();
    for (t, s) in calls {
        replayed.push(replayer.schedule(ThreadId(t), s));
    }
    assert_eq!(recorded, replayed);
    assert_eq!(recorded[1], SchedulerDecision::Block);
    assert!(replayer.get_decisions().is_empty());
}

#[test]
fn replay_with_registrations_between_calls_reproduces_recording() {
    let mut recorder = DeterministicScheduler::new();
    let mut recorded = Vec::new();
    recorder.register_thread(ThreadId(1));
    recorded.push(recorder.schedule(ThreadId(1), 1));
    recorder.terminate_thread(ThreadId(2));
    recorded.push(recorder.schedule(ThreadId(2), 2));
    recorder.register_thread(ThreadId(2));
    recorded.push(recorder.schedule(ThreadId(2), 3));
    recorder.terminate_thread(ThreadId(1));
    recorded.push(recorder.schedule(ThreadId(1), 4));
    assert_eq!(
        recorded,
        vec![
            SchedulerDecision::Continue,
            SchedulerDecision::Block,
            SchedulerDecision::Continue,
            SchedulerDecision::Block,
        ]
    );

    // The replay interleaves different registrations; the decisions still follow the recording.
    let mut replayer = DeterministicScheduler::new();
    replayer.set_replay_mode(recorder.get_decisions());
    let mut replayed = Vec::new();
    replayer.terminate_thread(ThreadId(1));
    replayed.push(replayer.schedule(ThreadId(1), 1));
    replayer.register_thread(ThreadId(2));
    replayed.push(replayer.schedule(ThreadId(2), 2));
    replayer.terminate_thread(ThreadId(2));
    replayed.push(replayer.schedule(ThreadId(2), 3));
    replayer.register_thread(ThreadId(1));
    replayed.push(replayer.schedule(ThreadId(1), 4));
    assert_eq!(recorded, replayed);
    assert!(replayer.get_decisions().is_empty());
}

#[test]
fn terminated_thread_stays_blocked_until_registered() {
    let mut scheduler = DeterministicScheduler::new();
    scheduler.register_thread(ThreadId(4));
    scheduler.register_thread(ThreadId(6));
    scheduler.terminate_thread(ThreadId(4));
    assert_eq!(scheduler.get_decisions().len(), 0);
    assert_eq!(scheduler.schedule(ThreadId(4), 1), SchedulerDecision::Block);
    assert_eq!(scheduler.schedule(ThreadId(6), 2), SchedulerDecision::Continue);
    scheduler.terminate_thread(ThreadId(6));
    scheduler.register_thread(ThreadId(6));
    assert_eq!(scheduler.schedule(ThreadId(4), 3), SchedulerDecision::Block);
    assert_eq!(scheduler.schedule(ThreadId(6), 4), SchedulerDecision::Continue);
    let decisions = scheduler.get_decisions();
    assert_eq!(decisions.len(), 4);
    assert_eq!(decisions[2].decision, SchedulerDecision::Block);
    assert_eq!(decisions[2].thread_id, ThreadId(4));
    scheduler.register_thread(ThreadId(4));
    assert_eq!(scheduler.schedule(ThreadId(4), 5), SchedulerDecision::Continue);
}
