use vespertine::sched::scheduler::{
    account_running_thread, request_stolen_work, should_refresh_quantum, ScheduleReason,
    SchedulerState, TCBQueue, Thread, ThreadState, TidCounter,
};

fn thread(priority: u8) -> Thread {
    Thread {
        state: ThreadState::Ready,
        base_priority: priority,
        effective_priority: priority,
        last_started: 0,
        total_runtime: 0,
        ready_since: 0,
        quantum_expiry: 0,
        process: priority as u64,
        process_terminating: false,
        cancel_requested: false,
        migratable: true,
        assigned_core: 0,
        exit_code: None,
    }
}

/// A scheduler with an idle thread, which runs, and the given others.
fn scheduler(priorities: &[u8]) -> (SchedulerState, Vec<Thread>) {
    let mut threads = vec![thread(31)];
    threads[0].state = ThreadState::Running;
    let mut sched = SchedulerState::new();
    sched.init_basic(0);
    sched.init_threads(&threads, 0, 0);
    for priority in priorities {
        threads.push(thread(*priority));
        let last = threads.len() - 1;
        sched.push(&mut threads, last, 5);
    }
    (sched, threads)
}

#[test]
fn queue_is_first_in_first_out() {
    let mut queue = TCBQueue::new();
    queue.push(1);
    queue.push(2);
    assert_eq!(queue.len(), 2);
    assert_eq!(queue.pop(), Some(1));
    assert_eq!(queue.pop(), Some(2));
    assert_eq!(queue.pop(), None);
}

#[test]
fn most_urgent_thread_runs_first() {
    let (mut sched, mut threads) = scheduler(&[10, 3, 3]);
    let outcome = sched.schedule(&mut threads, ScheduleReason::QuantumExpired, None, 100, 31, 50);
    assert_eq!(outcome.next, 2);
    assert_eq!(outcome.prev, Some(0));
    assert!(outcome.switches);
    assert!(outcome.switches_space);
    assert_eq!(threads[2].state, ThreadState::Running);
    assert_eq!(threads[2].quantum_expiry, 150);
    assert_eq!(sched.get_current_thread(), Some(2));
    let outcome = sched.schedule(&mut threads, ScheduleReason::Blocked, None, 120, 4, 50);
    assert_eq!(outcome.next, 3);
}

#[test]
fn threads_that_are_to_exit_are_buried() {
    let (mut sched, mut threads) = scheduler(&[3, 5]);
    threads[1].cancel_requested = true;
    let outcome = sched.schedule(&mut threads, ScheduleReason::Blocked, None, 100, 31, 50);
    assert_eq!(outcome.next, 2);
    assert_eq!(outcome.graves, vec![1]);
    assert_eq!(threads[1].state, ThreadState::Terminated);
}

#[test]
fn idle_thread_runs_when_nothing_else_can() {
    let (mut sched, mut threads) = scheduler(&[]);
    threads[0].state = ThreadState::Blocked;
    threads.push(thread(4));
    threads[1].state = ThreadState::Blocked;
    sched.current_thread = Some(1);
    threads[0].state = ThreadState::Ready;
    let outcome = sched.schedule(&mut threads, ScheduleReason::Blocked, None, 100, 31, 50);
    assert_eq!(outcome.next, 0);
    assert!(outcome.wants_work);
}

#[test]
fn runtime_is_accounted_for() {
    let mut t = thread(4);
    t.last_started = 100;
    account_running_thread(&mut t, ScheduleReason::QuantumExpired, 160, 9);
    assert_eq!(t.total_runtime, 60);
    assert_eq!(t.effective_priority, 9);
    account_running_thread(&mut t, ScheduleReason::Blocked, 50, 12);
    assert_eq!(t.total_runtime, 60);
    assert_eq!(t.effective_priority, 9);
}

#[test]
fn quantum_is_refreshed() {
    assert!(should_refresh_quantum(1, Some(2), ScheduleReason::Blocked, 100, 50));
    assert!(!should_refresh_quantum(1, Some(1), ScheduleReason::Blocked, 100, 50));
    assert!(should_refresh_quantum(1, Some(1), ScheduleReason::Blocked, 50, 50));
    assert!(should_refresh_quantum(1, Some(1), ScheduleReason::QuantumExpired, 100, 50));
}

#[test]
fn least_urgent_thread_migrates() {
    let (mut sched, mut threads) = scheduler(&[3, 9, 9]);
    threads[2].migratable = false;
    assert_eq!(sched.pop_lowest_priority_migratable(&threads), Some(3));
    assert_eq!(sched.pop(&threads), Some(1));
}

#[test]
fn busiest_core_is_asked() {
    assert_eq!(request_stolen_work(&vec![9, 1, 4], 0), Some(2));
    assert_eq!(request_stolen_work(&vec![3], 0), None);
}

#[test]
fn thread_numbers_are_not_repeated() {
    let mut counter = TidCounter::new();
    let first = counter.get_new_tid();
    let second = counter.get_new_tid();
    assert_eq!(second, first + 1);
}

#[test]
fn exited_thread_does_not_run_again() {
    let (mut sched, mut threads) = scheduler(&[3]);
    sched.schedule(&mut threads, ScheduleReason::Blocked, None, 100, 31, 50);
    assert_eq!(sched.get_current_thread(), Some(1));
    let outcome = sched.terminate_current_thread(&mut threads, 7, None, 120, 31, 50);
    assert_eq!(threads[1].state, ThreadState::Terminated);
    assert_eq!(threads[1].exit_code, Some(7));
    assert_eq!(outcome.next, 0);
}

#[test]
fn transition_needs_the_right_state() {
    let mut t = thread(1);
    assert!(t.transition(ThreadState::Running, ThreadState::Blocked).is_err());
    assert!(t.transition(ThreadState::Ready, ThreadState::Running).is_ok());
    assert_eq!(t.state, ThreadState::Running);
}

#[test]
fn no_thread_is_lost_and_none_waits_twice() {
    let (mut sched, mut threads) = scheduler(&[10, 3, 3, 20]);
    threads[3].cancel_requested = true;
    let outcome = sched.schedule(&mut threads, ScheduleReason::Yield, None, 100, 31, 50);
    assert_eq!(outcome.next, 2);
    threads.push(thread(7));
    sched.mailbox.push(5);
    let outcome = sched.schedule(&mut threads, ScheduleReason::QuantumExpired, Some(1), 150, 8, 50);
    assert_eq!(outcome.donated, Some(4));
    assert_eq!(outcome.graves, vec![3]);
    assert_eq!(outcome.next, 5);
    let mut waiting = Vec::new();
    while let Some(next) = sched.pop(&threads) {
        waiting.push(next);
    }
    assert_eq!(waiting, vec![2, 1]);
}

#[test]
fn terminated_thread_makes_room_for_the_next() {
    let (mut sched, mut threads) = scheduler(&[3, 4]);
    sched.schedule(&mut threads, ScheduleReason::Yield, None, 100, 31, 50);
    let outcome = sched.terminate(&mut threads, 2, None, 120, 31, 50);
    assert_eq!((outcome.prev, outcome.next), (Some(1), 2));
    assert_eq!(threads[1].exit_code, Some(2));
    assert_eq!(threads[1].total_runtime, 20);
}
