//! What becomes of each thread when a processor chooses the next one.

use crate::sched::keeping::{
    lemma_drained_once, lemma_drained_waits, lemma_picked_waits, lemma_removed_once, once, orderly,
    waits,
};
use crate::sched::scheduler::{
    behind, donation, drained, exited, first_ready, is_first_runnable, known, last_migratable,
    law_first_runnable_is_chosen, lemma_drained, lemma_first_ready, lemma_known_less,
    lemma_known_rest, lemma_last_migratable, lemma_picked, lemma_total, migratable_in, picked,
    prioritized, pushed, retired, runnable, scene_wf, scheduled, should_exit, space_changes,
    stopped, total, Board, Ready, Scene, ScheduleReason, Thread, ThreadState,
};
use vstd::prelude::*;

verus! {

/// A thread waits in the queue of priority `p`.
pub open spec fn waits_at(ready: Ready, p: int, t: usize) -> bool {
    0 <= p < ready.len() && ready[p].contains(t)
}

/// Thread `t` waits before thread `u` in the queue of priority `p`.
pub open spec fn before(ready: Ready, p: int, t: usize, u: usize) -> bool {
    0 <= p < ready.len() && exists|i: int, j: int|
        0 <= i < j < ready[p].len() && #[trigger] ready[p][i] == t && #[trigger] ready[p][j] == u
}

/// A thread that has been asked to exit.
pub open spec fn leaving(thread: Thread) -> bool {
    thread.cancel_requested || thread.process_terminating
}

/// The threads that wait, once one has been given away, the running one has
/// been stopped and the mailbox is empty.
spec fn lined_up(
    s: Scene,
    reason: ScheduleReason,
    requester: Option<u64>,
    now: u64,
    decayed: u8,
) -> Board {
    let (_, ready, threads) = donation(s.board.ready, s.board.threads, s.core, requester);
    let (_, threads) = stopped(threads, s.current, reason, now, decayed);
    drained(Board { ready, threads, graves: Seq::empty() }, s.mailbox, now)
}

proof fn lemma_removed_at(ready: Ready, p: int, i: int, q: int, t: usize)
    requires
        0 <= p < ready.len(),
        0 <= i < ready[p].len(),
        waits_at(ready, q, t),
        t != ready[p][i],
    ensures
        waits_at(ready.update(p, ready[p].remove(i)), q, t),
{
    let after = ready.update(p, ready[p].remove(i));
    let j = ready[q].index_of(t);
    if q == p && j > i {
        assert(after[q][j - 1] == t);
    } else {
        assert(after[q][j] == t);
    }
}

proof fn lemma_removed_before(ready: Ready, p: int, i: int, q: int, t: usize, u: usize)
    requires
        0 <= p < ready.len(),
        0 <= i < ready[p].len(),
        before(ready, q, t, u),
        t != ready[p][i],
        u != ready[p][i],
    ensures
        before(ready.update(p, ready[p].remove(i)), q, t, u),
{
    let after = ready.update(p, ready[p].remove(i));
    let (a, b) = choose|a: int, b: int|
        0 <= a < b < ready[q].len() && #[trigger] ready[q][a] == t && #[trigger] ready[q][b] == u;
    let a2 = if q == p && a > i {
        a - 1
    } else {
        a
    };
    let b2 = if q == p && b > i {
        b - 1
    } else {
        b
    };
    assert(after[q][a2] == t);
    assert(after[q][b2] == u);
    assert(a2 < b2);
}

/// What is put into the queues goes behind what waits there.
proof fn lemma_drained_at(b: Board, mailbox: Seq<usize>, now: u64, p: int, t: usize, u: usize)
    requires
        b.ready.len() == 32,
        known(b.ready, b.threads.len()),
        prioritized(b.threads),
        forall|i: int| 0 <= i < mailbox.len() ==> #[trigger] mailbox[i] < b.threads.len(),
        t < b.threads.len(),
    ensures
        waits_at(b.ready, p, t) ==> waits_at(drained(b, mailbox, now).ready, p, t),
        before(b.ready, p, t, u) ==> before(drained(b, mailbox, now).ready, p, t, u),
        mailbox.contains(t) ==> waits_at(
            drained(b, mailbox, now).ready,
            b.threads[t as int].effective_priority as int,
            t,
        ),
    decreases mailbox.len(),
{
    if mailbox.len() > 0 {
        let item = mailbox[0];
        let next = pushed(b, item, now);
        let rest = mailbox.skip(1);
        assert forall|i: int| 0 <= i < rest.len() implies #[trigger] rest[i] < b.threads.len() by {
            assert(rest[i] == mailbox[i + 1]);
        }
        let q = b.threads[item as int].effective_priority as int;
        assert(b.threads[item as int].effective_priority < 32);
        if waits_at(b.ready, p, t) {
            let i = b.ready[p].index_of(t);
            assert(next.ready[p][i] == t);
        }
        if before(b.ready, p, t, u) {
            let (i, j) = choose|i: int, j: int|
                0 <= i < j < b.ready[p].len() && #[trigger] b.ready[p][i] == t
                    && #[trigger] b.ready[p][j] == u;
            assert(next.ready[p][i] == t);
            assert(next.ready[p][j] == u);
        }
        assert(next.ready[q][b.ready[q].len() as int] == item);
        assert(known(next.ready, next.threads.len())) by {
            assert forall|x: int, y: int|
                0 <= x < next.ready.len() && 0 <= y < next.ready[x].len() implies
                #[trigger] next.ready[x][y] < next.threads.len() by {
                if x != q || y < b.ready[q].len() {
                    assert(next.ready[x][y] == b.ready[x][y]);
                }
            }
        }
        lemma_drained_at(next, rest, now, p, t, u);
        lemma_drained_at(next, rest, now, q, item, u);
        if mailbox.contains(t) && t != item {
            let i = mailbox.index_of(t);
            assert(rest[i - 1] == t);
        }
    }
}

/// A thread that can run and is not chosen stays where it waits.
proof fn lemma_picked_at(b: Board, p: int, t: usize)
    requires
        known(b.ready, b.threads.len()),
        t < b.threads.len(),
        runnable(b.threads[t as int]),
        waits_at(b.ready, p, t),
        picked(b).0 != Some(t),
    ensures
        waits_at(picked(b).1.ready, p, t),
        picked(b).1.threads[t as int] == b.threads[t as int],
    decreases total(b.ready),
{
    lemma_first_ready(b.ready, 0);
    let place = b.ready[p].index_of(t);
    assert(b.ready[p][place] == t);
    match first_ready(b.ready, 0) {
        None => {
            lemma_none_ready(b.ready, 0, p);
        },
        Some(q) => {
            let item = b.ready[q][0];
            let thread = b.threads[item as int];
            let queue = b.ready[q].skip(1);
            let ready = b.ready.update(q, queue);
            lemma_total(b.ready, q, queue);
            lemma_known_rest(b.ready, q, b.threads.len());
            assert(queue =~= b.ready[q].remove(0));
            if runnable(thread) {
                assert(picked(b).0 == Some(item));
                lemma_removed_at(b.ready, q, 0, p, t);
            } else {
                lemma_removed_at(b.ready, q, 0, p, t);
                let rest = if should_exit(thread) && retired(thread, 0) is Some {
                    Board {
                        ready,
                        threads: b.threads.update(item as int, retired(thread, 0)->0),
                        graves: b.graves.push(item),
                    }
                } else {
                    Board { ready, ..b }
                };
                assert(picked(b) == picked(rest));
                lemma_picked_at(rest, p, t);
            }
        },
    }
}

proof fn lemma_none_ready(ready: Ready, from: int, p: int)
    requires
        0 <= from <= p < ready.len(),
        first_ready(ready, from) is None,
    ensures
        ready[p].len() == 0,
    decreases p - from,
{
    if from < p {
        lemma_none_ready(ready, from + 1, p);
    }
}

/// What choosing a thread leaves of every thread: who it is. One that is buried
/// was to leave, and has left.
proof fn lemma_picked_keeps(b: Board, t: usize)
    requires
        known(b.ready, b.threads.len()),
        t < b.threads.len(),
    ensures
        same_thread(b.threads[t as int], picked(b).1.threads[t as int]),
        picked(b).0 == Some(t) ==> picked(b).1.threads[t as int] == (Thread {
            state: ThreadState::Running,
            ..b.threads[t as int]
        }) && runnable(b.threads[t as int]),
        !waits(b.ready, t) ==> picked(b).1.threads[t as int] == b.threads[t as int] && picked(b).0
            != Some(t),
        picked(b).1.graves.contains(t) && !b.graves.contains(t) ==> {
            &&& leaving(b.threads[t as int])
            &&& picked(b).1.threads[t as int].state == ThreadState::Terminated
            &&& picked(b).1.threads[t as int].exit_code == Some(0u32)
        },
        b.graves.contains(t) ==> picked(b).1.graves.contains(t),
        b.threads[t as int].exit_code is Some || b.threads[t as int].state
            == ThreadState::Terminated ==> picked(b).1.threads[t as int].exit_code
            == b.threads[t as int].exit_code,
        picked(b).1.threads[t as int].effective_priority == b.threads[t as int].effective_priority,
    decreases total(b.ready),
{
    lemma_first_ready(b.ready, 0);
    if let Some(p) = first_ready(b.ready, 0) {
        let item = b.ready[p][0];
        let thread = b.threads[item as int];
        let queue = b.ready[p].skip(1);
        let ready = b.ready.update(p, queue);
        lemma_total(b.ready, p, queue);
        lemma_known_rest(b.ready, p, b.threads.len());
        assert(waits(b.ready, item)) by {
            assert(b.ready[p][0] == item);
        }
        if waits(ready, t) {
            let (q, i) = choose|q: int, i: int|
                0 <= q < ready.len() && 0 <= i < ready[q].len() && #[trigger] ready[q][i] == t;
            if q == p {
                assert(b.ready[p][i + 1] == t);
            } else {
                assert(b.ready[q][i] == t);
            }
        }
        if !runnable(thread) {
            let rest = if should_exit(thread) && retired(thread, 0) is Some {
                Board {
                    ready,
                    threads: b.threads.update(item as int, retired(thread, 0)->0),
                    graves: b.graves.push(item),
                }
            } else {
                Board { ready, ..b }
            };
            assert(picked(b) == picked(rest));
            lemma_picked_keeps(rest, t);
            if should_exit(thread) && retired(thread, 0) is Some {
                if b.graves.contains(t) {
                    let i = b.graves.index_of(t);
                    assert(rest.graves[i] == t);
                }
                if rest.graves.contains(t) && !b.graves.contains(t) {
                    let i = rest.graves.index_of(t);
                    assert(i == b.graves.len());
                    assert(t == item);
                    assert(rest.threads[t as int] == retired(thread, 0)->0);
                    lemma_buried_stays(rest, t);
                }
            }
        }
    }
}

proof fn lemma_buried_stays(b: Board, t: usize)
    requires
        known(b.ready, b.threads.len()),
        t < b.threads.len(),
        b.threads[t as int].state == ThreadState::Terminated,
    ensures
        picked(b).1.threads[t as int] == b.threads[t as int],
    decreases total(b.ready),
{
    lemma_first_ready(b.ready, 0);
    if let Some(p) = first_ready(b.ready, 0) {
        let item = b.ready[p][0];
        let thread = b.threads[item as int];
        let queue = b.ready[p].skip(1);
        let ready = b.ready.update(p, queue);
        lemma_total(b.ready, p, queue);
        lemma_known_rest(b.ready, p, b.threads.len());
        if !runnable(thread) {
            let rest = if should_exit(thread) && retired(thread, 0) is Some {
                Board {
                    ready,
                    threads: b.threads.update(item as int, retired(thread, 0)->0),
                    graves: b.graves.push(item),
                }
            } else {
                Board { ready, ..b }
            };
            assert(picked(b) == picked(rest));
            lemma_buried_stays(rest, t);
        }
    }
}

/// Who a thread is, and what it was asked for.
pub open spec fn same_thread(a: Thread, b: Thread) -> bool {
    &&& a.base_priority == b.base_priority
    &&& a.process == b.process
    &&& a.process_terminating == b.process_terminating
    &&& a.cancel_requested == b.cancel_requested
    &&& a.migratable == b.migratable
    &&& a.quantum_expiry == b.quantum_expiry
    &&& a.last_started == b.last_started
    &&& a.total_runtime == b.total_runtime
    &&& a.assigned_core == b.assigned_core
}

proof fn lemma_lined_up(
    s: Scene,
    reason: ScheduleReason,
    requester: Option<u64>,
    now: u64,
    decayed: u8,
)
    requires
        scene_wf(s),
        decayed < 32,
    ensures
        ({
            let q = lined_up(s, reason, requester, now, decayed);
            &&& q.ready.len() == 32
            &&& q.threads.len() == s.board.threads.len()
            &&& known(q.ready, q.threads.len())
            &&& prioritized(q.threads)
            &&& q.graves.len() == 0
        }),
{
    let (_, ready, threads) = donation(s.board.ready, s.board.threads, s.core, requester);
    lemma_last_migratable(s.board.threads, s.board.ready, 32);
    if let Some((p, i)) = last_migratable(s.board.threads, s.board.ready, 32) {
        lemma_known_less(s.board.ready, p, i, s.board.threads.len());
        assert(s.board.ready[p][i] < s.board.threads.len());
    }
    let (_, stopped_threads) = stopped(threads, s.current, reason, now, decayed);
    let b = Board { ready, threads: stopped_threads, graves: Seq::empty() };
    lemma_drained(b, s.mailbox, now);
    lemma_drained_waits(b, s.mailbox, now, s.idle);
}

/// A thread that waited still does when all are lined up, where it waited,
/// unless it was given away.
proof fn lemma_lined_up_thread(
    s: Scene,
    reason: ScheduleReason,
    requester: Option<u64>,
    now: u64,
    decayed: u8,
    t: usize,
    p: int,
)
    requires
        scene_wf(s),
        decayed < 32,
        t < s.board.threads.len(),
        donation(s.board.ready, s.board.threads, s.core, requester).0 != Some(t),
    ensures
        ({
            let q = lined_up(s, reason, requester, now, decayed);
            let old = s.board.threads[t as int];
            let new = q.threads[t as int];
            &&& s.current != Some(t) ==> new == (Thread { ready_since: new.ready_since, ..old })
            &&& waits_at(s.board.ready, p, t) ==> waits_at(q.ready, p, t)
            &&& s.current != Some(t) && s.mailbox.contains(t) && p == old.effective_priority
                ==> waits_at(q.ready, p, t)
        }),
{
    let (donated, ready, threads) = donation(s.board.ready, s.board.threads, s.core, requester);
    lemma_last_migratable(s.board.threads, s.board.ready, 32);
    if let Some((x, i)) = last_migratable(s.board.threads, s.board.ready, 32) {
        lemma_known_less(s.board.ready, x, i, s.board.threads.len());
        assert(s.board.ready[x][i] < s.board.threads.len());
        if donated is Some && waits_at(s.board.ready, p, t) {
            lemma_removed_at(s.board.ready, x, i, p, t);
        }
    }
    let (_, stopped_threads) = stopped(threads, s.current, reason, now, decayed);
    let b = Board { ready, threads: stopped_threads, graves: Seq::empty() };
    lemma_drained(b, s.mailbox, now);
    lemma_drained_waits(b, s.mailbox, now, t);
    lemma_drained_at(b, s.mailbox, now, p, t, t);
}

/// A thread that waits, is ready and is not to leave is chosen, given away, or
/// still waits in the queue that it waited in, ready and otherwise as it was.
/// What was sent to the processor waits in the queue of its priority.
pub proof fn law_waiting_thread_stays_runnable(
    s: Scene,
    reason: ScheduleReason,
    requester: Option<u64>,
    now: u64,
    decayed: u8,
    quantum: u64,
    t: usize,
    p: int,
)
    requires
        scene_wf(s),
        decayed < 32,
        t < s.board.threads.len(),
        t != s.idle,
        s.current != Some(t),
        s.board.threads[t as int].state == ThreadState::Ready,
        !leaving(s.board.threads[t as int]),
        waits_at(s.board.ready, p, t) || s.mailbox.contains(t) && p
            == s.board.threads[t as int].effective_priority,
    ensures
        ({
            let (verdict, after) = scheduled(s, reason, requester, now, decayed, quantum);
            let old = s.board.threads[t as int];
            let new = after.board.threads[t as int];
            ||| verdict.next == t
            ||| verdict.donated == Some(t)
            ||| waits_at(after.board.ready, p, t) && new == (Thread {
                ready_since: new.ready_since,
                ..old
            })
        }),
{
    let (verdict, after) = scheduled(s, reason, requester, now, decayed, quantum);
    if verdict.donated != Some(t) && verdict.next != t {
        lemma_lined_up(s, reason, requester, now, decayed);
        lemma_lined_up_thread(s, reason, requester, now, decayed, t, p);
        let q = lined_up(s, reason, requester, now, decayed);
        lemma_picked_at(q, p, t);
        lemma_picked(q);
        lemma_picked_waits(q, t);
        lemma_way(s, reason, requester, now, decayed, quantum, t, p);
    }
}

proof fn lemma_picked_known(b: Board)
    requires
        known(b.ready, b.threads.len()),
    ensures
        picked(b).0 matches Some(next) ==> next < b.threads.len() && waits(b.ready, next)
            && runnable(b.threads[next as int]),
{
    law_first_runnable_is_chosen(b);
    if let (Some(next), after) = picked(b) {
        let (p, i) = choose|p: int, i: int| #[trigger]
            is_first_runnable(b, p, i) && b.ready[p][i] == next && after.ready == behind(
                b.ready,
                p,
                i,
            ) && after.threads[next as int].state == ThreadState::Running;
        assert(b.ready[p][i] == next);
    }
}

/// The thread that ran goes behind the others, and no other thread changes its
/// place.
proof fn lemma_way(
    s: Scene,
    reason: ScheduleReason,
    requester: Option<u64>,
    now: u64,
    decayed: u8,
    quantum: u64,
    t: usize,
    p: int,
)
    requires
        scene_wf(s),
        decayed < 32,
        t < s.board.threads.len(),
        scheduled(s, reason, requester, now, decayed, quantum).0.next != t,
        t != s.idle,
        s.current != Some(t),
    ensures
        ({
            let (_, after) = scheduled(s, reason, requester, now, decayed, quantum);
            let (_, chosen) = picked(lined_up(s, reason, requester, now, decayed));
            &&& waits_at(chosen.ready, p, t) ==> waits_at(after.board.ready, p, t)
            &&& after.board.threads[t as int] == chosen.threads[t as int]
        }),
{
    let q = lined_up(s, reason, requester, now, decayed);
    let (found, chosen) = picked(q);
    lemma_lined_up(s, reason, requester, now, decayed);
    lemma_picked(q);
    lemma_picked_waits(q, s.idle);
    lemma_picked_known(q);
    let (_, after) = scheduled(s, reason, requester, now, decayed, quantum);
    if let Some(c) = s.current {
        lemma_picked_waits(q, c);
        assert(q.threads[c as int].effective_priority < 32);
        lemma_picked_keeps(q, c);
    }
    if waits_at(chosen.ready, p, t) {
        let i = chosen.ready[p].index_of(t);
        assert(after.board.ready[p][i] == t);
    }
}

/// The running thread when all are lined up: it has been accounted for, and has
/// left if it was to leave.
proof fn lemma_lined_up_current(
    s: Scene,
    reason: ScheduleReason,
    requester: Option<u64>,
    now: u64,
    decayed: u8,
    c: usize,
)
    requires
        scene_wf(s),
        orderly(s),
        decayed < 32,
        s.current == Some(c),
        s.board.threads[c as int].state == ThreadState::Running,
    ensures
        ({
            let q = lined_up(s, reason, requester, now, decayed);
            let (donated, _, threads) = donation(
                s.board.ready,
                s.board.threads,
                s.core,
                requester,
            );
            let (gone, _) = stopped(threads, s.current, reason, now, decayed);
            let old = s.board.threads[c as int];
            let new = q.threads[c as int];
            &&& donated != Some(c)
            &&& !waits(q.ready, c)
            &&& gone == (leaving(old) && old.exit_code is None)
            &&& new.effective_priority == if reason == ScheduleReason::QuantumExpired {
                decayed
            } else {
                old.effective_priority
            }
            &&& new.total_runtime == if old.last_started == 0 || now <= old.last_started {
                old.total_runtime as int
            } else if old.total_runtime + (now - old.last_started) > u64::MAX {
                u64::MAX as int
            } else {
                old.total_runtime + (now - old.last_started)
            }
            &&& new.state == if gone {
                ThreadState::Terminated
            } else {
                ThreadState::Running
            }
            &&& new.exit_code == if gone {
                Some(0u32)
            } else {
                old.exit_code
            }
            &&& same_thread(Thread { total_runtime: new.total_runtime, ..old }, new)
        }),
{
    let (donated, ready, threads) = donation(s.board.ready, s.board.threads, s.core, requester);
    assert(!waits(s.board.ready, c) && !s.mailbox.contains(c));
    lemma_last_migratable(s.board.threads, s.board.ready, 32);
    if let Some((x, i)) = last_migratable(s.board.threads, s.board.ready, 32) {
        let item = s.board.ready[x][i];
        assert(waits(s.board.ready, item));
        lemma_known_less(s.board.ready, x, i, s.board.threads.len());
        lemma_removed_once(s.board.ready, x, i);
    }
    assert(!waits(ready, c));
    let (_, stopped_threads) = stopped(threads, s.current, reason, now, decayed);
    let b = Board { ready, threads: stopped_threads, graves: Seq::empty() };
    lemma_drained(b, s.mailbox, now);
    lemma_drained_waits(b, s.mailbox, now, c);
}

/// A thread that ran, is not to leave and was not chosen again is ready and the
/// last in the queue of its priority. That is the one it had, or the one it has
/// decayed to where it has used up its quantum. The time that it ran has been
/// added to its run time, and otherwise it is as it was.
pub proof fn law_preempted_thread_goes_back_in_line(
    s: Scene,
    reason: ScheduleReason,
    requester: Option<u64>,
    now: u64,
    decayed: u8,
    quantum: u64,
    c: usize,
)
    requires
        scene_wf(s),
        orderly(s),
        decayed < 32,
        s.current == Some(c),
        c != s.idle,
        s.board.threads[c as int].state == ThreadState::Running,
        !leaving(s.board.threads[c as int]),
        scheduled(s, reason, requester, now, decayed, quantum).0.next != c,
    ensures
        ({
            let (verdict, after) = scheduled(s, reason, requester, now, decayed, quantum);
            let old = s.board.threads[c as int];
            let new = after.board.threads[c as int];
            let p = new.effective_priority as int;
            &&& new.state == ThreadState::Ready
            &&& !leaving(new)
            &&& new.exit_code == old.exit_code
            &&& p == if reason == ScheduleReason::QuantumExpired {
                decayed
            } else {
                old.effective_priority
            }
            &&& after.board.ready[p].len() > 0 && after.board.ready[p].last() == c
            &&& new.ready_since == now
            &&& new.total_runtime == if old.last_started == 0 || now <= old.last_started {
                old.total_runtime as int
            } else if old.total_runtime + (now - old.last_started) > u64::MAX {
                u64::MAX as int
            } else {
                old.total_runtime + (now - old.last_started)
            }
            &&& same_thread(Thread { total_runtime: new.total_runtime, ..old }, new)
            &&& verdict.donated != Some(c)
            &&& !verdict.graves.contains(c)
        }),
{
    let (verdict, after) = scheduled(s, reason, requester, now, decayed, quantum);
    let q = lined_up(s, reason, requester, now, decayed);
    lemma_lined_up(s, reason, requester, now, decayed);
    lemma_lined_up_current(s, reason, requester, now, decayed, c);
    lemma_picked_waits(q, c);
    lemma_picked_keeps(q, c);
    lemma_picked(q);
    lemma_picked_known(q);
    let (found, chosen) = picked(q);
    assert(found is Some);
    assert(chosen.threads[c as int] == q.threads[c as int]);
    assert(q.threads[c as int].effective_priority < 32);
    assert(chosen.ready.len() == 32);
    if chosen.graves.contains(c) {
        assert(chosen.threads[c as int].state == ThreadState::Terminated);
    }
}

/// The running thread leaves if it was asked to and had not left yet: it has
/// terminated with code zero, is buried, and is neither chosen nor does it wait.
pub proof fn law_leaving_thread_is_buried(
    s: Scene,
    reason: ScheduleReason,
    requester: Option<u64>,
    now: u64,
    decayed: u8,
    quantum: u64,
    c: usize,
)
    requires
        scene_wf(s),
        orderly(s),
        decayed < 32,
        s.current == Some(c),
        c != s.idle,
        s.board.threads[c as int].state == ThreadState::Running,
        s.board.threads[c as int].exit_code is None,
        leaving(s.board.threads[c as int]),
    ensures
        ({
            let (verdict, after) = scheduled(s, reason, requester, now, decayed, quantum);
            let new = after.board.threads[c as int];
            &&& new.state == ThreadState::Terminated
            &&& new.exit_code == Some(0u32)
            &&& verdict.graves.len() > 0 && verdict.graves.last() == c
            &&& verdict.next != c
            &&& !waits(after.board.ready, c)
        }),
{
    let (verdict, after) = scheduled(s, reason, requester, now, decayed, quantum);
    let q = lined_up(s, reason, requester, now, decayed);
    lemma_lined_up(s, reason, requester, now, decayed);
    lemma_lined_up_current(s, reason, requester, now, decayed, c);
    lemma_picked_keeps(q, c);
    lemma_picked(q);
    lemma_picked_known(q);
    lemma_buried_stays(q, c);
    let (found, chosen) = picked(q);
    lemma_less_waits(q, c);
    assert(after.board.ready == chosen.ready);
}

proof fn lemma_less_waits(b: Board, t: usize)
    requires
        known(b.ready, b.threads.len()),
        !waits(b.ready, t),
    ensures
        !waits(picked(b).1.ready, t),
{
    law_first_runnable_is_chosen(b);
    match picked(b) {
        (Some(next), after) => {
            let (p, i) = choose|p: int, i: int| #[trigger]
                is_first_runnable(b, p, i) && b.ready[p][i] == next && after.ready == behind(
                    b.ready,
                    p,
                    i,
                ) && after.threads[next as int].state == ThreadState::Running;
            if waits(after.ready, t) {
                let (q, j) = choose|q: int, j: int|
                    0 <= q < after.ready.len() && 0 <= j < after.ready[q].len()
                        && #[trigger] after.ready[q][j] == t;
                if q == p {
                    assert(b.ready[p][j + i + 1] == t);
                } else {
                    assert(b.ready[q][j] == t);
                }
            }
        },
        (None, after) => {
            if waits(after.ready, t) {
                let (q, j) = choose|q: int, j: int|
                    0 <= q < after.ready.len() && 0 <= j < after.ready[q].len()
                        && #[trigger] after.ready[q][j] == t;
                lemma_total(after.ready, q, after.ready[q]);
            }
        },
    }
}

/// Only threads that were to leave are buried, and all that are have left.
pub proof fn law_only_leaving_threads_are_buried(
    s: Scene,
    reason: ScheduleReason,
    requester: Option<u64>,
    now: u64,
    decayed: u8,
    quantum: u64,
    t: usize,
)
    requires
        scene_wf(s),
        orderly(s),
        decayed < 32,
        t < s.board.threads.len(),
        s.current matches Some(c) ==> s.board.threads[c as int].state == ThreadState::Running,
        t != s.idle,
        scheduled(s, reason, requester, now, decayed, quantum).0.graves.contains(t),
    ensures
        leaving(s.board.threads[t as int]),
        ({
            let (verdict, after) = scheduled(s, reason, requester, now, decayed, quantum);
            &&& verdict.next != t
            &&& after.board.threads[t as int].state == ThreadState::Terminated
            &&& after.board.threads[t as int].exit_code == Some(0u32)
        }),
{
    let (verdict, after) = scheduled(s, reason, requester, now, decayed, quantum);
    let q = lined_up(s, reason, requester, now, decayed);
    let (found, chosen) = picked(q);
    lemma_lined_up(s, reason, requester, now, decayed);
    lemma_picked(q);
    lemma_picked_known(q);
    lemma_picked_keeps(q, t);
    let place = verdict.graves.index_of(t);
    assert(verdict.graves[place] == t);
    if s.current == Some(t) {
        lemma_lined_up_current(s, reason, requester, now, decayed, t);
        if chosen.graves.contains(t) {
            assert(leaving(q.threads[t as int]));
        }
        if q.threads[t as int].state == ThreadState::Terminated {
            lemma_buried_stays(q, t);
        }
    } else {
        assert(chosen.graves.contains(t)) by {
            if place < chosen.graves.len() {
                assert(chosen.graves[place] == t);
            }
        }
        lemma_lined_up_leaving(s, reason, requester, now, decayed, t);
        assert(found != Some(t)) by {
            if found == Some(t) {
                assert(runnable(q.threads[t as int]));
            }
        }
        lemma_way(s, reason, requester, now, decayed, quantum, t, 0);
    }
}

proof fn lemma_lined_up_leaving(
    s: Scene,
    reason: ScheduleReason,
    requester: Option<u64>,
    now: u64,
    decayed: u8,
    t: usize,
)
    requires
        scene_wf(s),
        decayed < 32,
        t < s.board.threads.len(),
        s.current != Some(t),
    ensures
        ({
            let q = lined_up(s, reason, requester, now, decayed);
            let old = s.board.threads[t as int];
            let new = q.threads[t as int];
            &&& leaving(new) == leaving(old)
            &&& new.effective_priority == old.effective_priority
            &&& new.quantum_expiry == old.quantum_expiry
            &&& new.state == old.state
        }),
{
    let (donated, ready, threads) = donation(s.board.ready, s.board.threads, s.core, requester);
    lemma_last_migratable(s.board.threads, s.board.ready, 32);
    if let Some((x, i)) = last_migratable(s.board.threads, s.board.ready, 32) {
        lemma_known_less(s.board.ready, x, i, s.board.threads.len());
        assert(s.board.ready[x][i] < s.board.threads.len());
    }
    let (_, stopped_threads) = stopped(threads, s.current, reason, now, decayed);
    let b = Board { ready, threads: stopped_threads, graves: Seq::empty() };
    lemma_drained(b, s.mailbox, now);
    lemma_drained_waits(b, s.mailbox, now, t);
}

/// The chosen thread starts now. It gets a whole quantum if it is not the one
/// that ran, or if that has used its quantum up, and keeps what it has left of
/// it otherwise. At the idle priority there is no end to it.
pub proof fn law_chosen_thread_gets_its_quantum(
    s: Scene,
    reason: ScheduleReason,
    requester: Option<u64>,
    now: u64,
    decayed: u8,
    quantum: u64,
)
    requires
        scene_wf(s),
        decayed < 32,
        now + quantum <= u64::MAX,
    ensures
        ({
            let (verdict, after) = scheduled(s, reason, requester, now, decayed, quantum);
            let old = s.board.threads[verdict.next as int];
            let new = after.board.threads[verdict.next as int];
            &&& verdict.next < s.board.threads.len()
            &&& after.current == Some(verdict.next)
            &&& after.mailbox.len() == 0
            &&& after.idle == s.idle
            &&& after.core == s.core
            &&& new.last_started == now
            &&& new.quantum_expiry == if new.effective_priority == 31 {
                u64::MAX as int
            } else if s.current != Some(verdict.next) || reason == ScheduleReason::QuantumExpired
                || old.quantum_expiry <= now {
                now + quantum
            } else {
                old.quantum_expiry as int
            }
        }),
{
    let (verdict, after) = scheduled(s, reason, requester, now, decayed, quantum);
    let q = lined_up(s, reason, requester, now, decayed);
    lemma_lined_up(s, reason, requester, now, decayed);
    lemma_picked(q);
    lemma_picked_known(q);
    lemma_picked_keeps(q, verdict.next);
    lemma_kept_expiry(s, reason, requester, now, decayed, verdict.next);
}

proof fn lemma_kept_expiry(
    s: Scene,
    reason: ScheduleReason,
    requester: Option<u64>,
    now: u64,
    decayed: u8,
    t: usize,
)
    requires
        scene_wf(s),
        decayed < 32,
        t < s.board.threads.len(),
    ensures
        lined_up(s, reason, requester, now, decayed).threads[t as int].quantum_expiry
            == s.board.threads[t as int].quantum_expiry,
{
    let (donated, ready, threads) = donation(s.board.ready, s.board.threads, s.core, requester);
    lemma_last_migratable(s.board.threads, s.board.ready, 32);
    if let Some((x, i)) = last_migratable(s.board.threads, s.board.ready, 32) {
        lemma_known_less(s.board.ready, x, i, s.board.threads.len());
        assert(s.board.ready[x][i] < s.board.threads.len());
    }
    let (_, stopped_threads) = stopped(threads, s.current, reason, now, decayed);
    let b = Board { ready, threads: stopped_threads, graves: Seq::empty() };
    lemma_drained(b, s.mailbox, now);
    lemma_drained_waits(b, s.mailbox, now, t);
}

/// As long as a thread waits that could run, no thread behind it in its queue
/// and none of a lower priority is chosen, and neither is the one that ran or
/// the idle one, and no work is asked for.
pub proof fn law_turns_are_kept(
    s: Scene,
    reason: ScheduleReason,
    requester: Option<u64>,
    now: u64,
    decayed: u8,
    quantum: u64,
    t: usize,
    p: int,
)
    requires
        scene_wf(s),
        orderly(s),
        decayed < 32,
        t < s.board.threads.len(),
        s.current != Some(t),
        s.board.threads[t as int].state == ThreadState::Ready,
        !leaving(s.board.threads[t as int]),
        waits_at(s.board.ready, p, t),
        scheduled(s, reason, requester, now, decayed, quantum).0.donated != Some(t),
    ensures
        ({
            let (verdict, after) = scheduled(s, reason, requester, now, decayed, quantum);
            &&& verdict.next != s.idle
            &&& s.current matches Some(c) ==> s.board.threads[c as int].state
                == ThreadState::Running ==> verdict.next != c
            &&& !verdict.wants_work
            &&& !before(s.board.ready, p, t, verdict.next)
            &&& forall|x: int|
                p < x < 32 ==> !#[trigger] waits_at(s.board.ready, x, verdict.next)
        }),
{
    let (verdict, after) = scheduled(s, reason, requester, now, decayed, quantum);
    let q = lined_up(s, reason, requester, now, decayed);
    let (found, chosen) = picked(q);
    let u = verdict.next;
    lemma_lined_up(s, reason, requester, now, decayed);
    lemma_lined_up_thread(s, reason, requester, now, decayed, t, p);
    lemma_queue_once(s, reason, requester, now, decayed);
    law_first_runnable_is_chosen(q);
    lemma_picked_known(q);
    let place = q.ready[p].index_of(t);
    assert(q.ready[p][place] == t);
    assert(runnable(q.threads[t as int]));
    assert(found is Some);
    if let Some(c) = s.current {
        if s.board.threads[c as int].state == ThreadState::Running {
            lemma_lined_up_current(s, reason, requester, now, decayed, c);
        }
    }
    assert(!waits(q.ready, s.idle)) by {
        lemma_line_waits(s, reason, requester, now, decayed, s.idle);
    }
    let (x, y) = choose|x: int, y: int| #[trigger]
        is_first_runnable(q, x, y) && q.ready[x][y] == u && chosen.ready == behind(q.ready, x, y)
            && chosen.threads[u as int].state == ThreadState::Running;
    assert(x < p || x == p && y <= place);
    assert(waits(q.ready, u));
    assert(donation(s.board.ready, s.board.threads, s.core, requester).0 != Some(u)) by {
        lemma_line_waits(s, reason, requester, now, decayed, u);
    }
    if before(s.board.ready, p, t, u) {
        lemma_order_kept(s, reason, requester, now, decayed, p, t, u);
        let (i, j) = choose|i: int, j: int|
            0 <= i < j < q.ready[p].len() && #[trigger] q.ready[p][i] == t && #[trigger] q.ready[p][j]
                == u;
        assert(q.ready[x][y] == q.ready[p][j]);
        assert(q.ready[p][i] == q.ready[p][place]);
    }
    assert forall|z: int| p < z < 32 implies !#[trigger] waits_at(s.board.ready, z, u) by {
        if waits_at(s.board.ready, z, u) {
            lemma_lined_up_thread(s, reason, requester, now, decayed, u, z);
            let k = q.ready[z].index_of(u);
            assert(q.ready[z][k] == q.ready[x][y]);
        }
    }
}

proof fn lemma_order_kept(
    s: Scene,
    reason: ScheduleReason,
    requester: Option<u64>,
    now: u64,
    decayed: u8,
    p: int,
    t: usize,
    u: usize,
)
    requires
        scene_wf(s),
        decayed < 32,
        t < s.board.threads.len(),
        before(s.board.ready, p, t, u),
        donation(s.board.ready, s.board.threads, s.core, requester).0 != Some(t),
        donation(s.board.ready, s.board.threads, s.core, requester).0 != Some(u),
    ensures
        before(lined_up(s, reason, requester, now, decayed).ready, p, t, u),
{
    let (donated, ready, threads) = donation(s.board.ready, s.board.threads, s.core, requester);
    lemma_last_migratable(s.board.threads, s.board.ready, 32);
    if let Some((x, i)) = last_migratable(s.board.threads, s.board.ready, 32) {
        lemma_known_less(s.board.ready, x, i, s.board.threads.len());
        assert(s.board.ready[x][i] < s.board.threads.len());
        if donated is Some {
            lemma_removed_before(s.board.ready, x, i, p, t, u);
        }
    }
    let (_, stopped_threads) = stopped(threads, s.current, reason, now, decayed);
    let b = Board { ready, threads: stopped_threads, graves: Seq::empty() };
    lemma_drained_at(b, s.mailbox, now, p, t, u);
}

proof fn lemma_queue_once(
    s: Scene,
    reason: ScheduleReason,
    requester: Option<u64>,
    now: u64,
    decayed: u8,
)
    requires
        scene_wf(s),
        orderly(s),
        decayed < 32,
    ensures
        once(lined_up(s, reason, requester, now, decayed).ready),
{
    let (donated, ready, threads) = donation(s.board.ready, s.board.threads, s.core, requester);
    lemma_last_migratable(s.board.threads, s.board.ready, 32);
    if let Some((x, i)) = last_migratable(s.board.threads, s.board.ready, 32) {
        lemma_known_less(s.board.ready, x, i, s.board.threads.len());
        lemma_removed_once(s.board.ready, x, i);
        assert(s.board.ready[x][i] < s.board.threads.len());
    }
    let (_, stopped_threads) = stopped(threads, s.current, reason, now, decayed);
    let b = Board { ready, threads: stopped_threads, graves: Seq::empty() };
    lemma_drained_once(b, s.mailbox, now);
}

/// Whoever is lined up waited before, and has not been given away.
proof fn lemma_line_waits(
    s: Scene,
    reason: ScheduleReason,
    requester: Option<u64>,
    now: u64,
    decayed: u8,
    t: usize,
)
    requires
        scene_wf(s),
        orderly(s),
        decayed < 32,
        t < s.board.threads.len(),
    ensures
        waits(lined_up(s, reason, requester, now, decayed).ready, t) ==> {
            &&& waits(s.board.ready, t) || s.mailbox.contains(t)
            &&& donation(s.board.ready, s.board.threads, s.core, requester).0 != Some(t)
            &&& t != s.idle
            &&& s.board.threads[t as int].state != ThreadState::Running
        },
{
    let (donated, ready, threads) = donation(s.board.ready, s.board.threads, s.core, requester);
    lemma_last_migratable(s.board.threads, s.board.ready, 32);
    if let Some((x, i)) = last_migratable(s.board.threads, s.board.ready, 32) {
        lemma_known_less(s.board.ready, x, i, s.board.threads.len());
        lemma_removed_once(s.board.ready, x, i);
        assert(s.board.ready[x][i] < s.board.threads.len());
        assert(waits(s.board.ready, s.board.ready[x][i]));
    }
    let (_, stopped_threads) = stopped(threads, s.current, reason, now, decayed);
    let b = Board { ready, threads: stopped_threads, graves: Seq::empty() };
    lemma_drained_waits(b, s.mailbox, now, t);
}

/// Where no thread waits that could run, the one that ran goes on if it can, or
/// else the idle thread runs. Work is asked for exactly if the idle thread runs
/// for want of another.
pub proof fn law_work_is_asked_for_when_idle(
    s: Scene,
    reason: ScheduleReason,
    requester: Option<u64>,
    now: u64,
    decayed: u8,
    quantum: u64,
)
    requires
        scene_wf(s),
        orderly(s),
        decayed < 32,
    ensures
        ({
            let (verdict, after) = scheduled(s, reason, requester, now, decayed, quantum);
            &&& verdict.wants_work <==> verdict.next == s.idle
            &&& verdict.next == s.idle || s.current == Some(verdict.next) || waits(
                s.board.ready,
                verdict.next,
            ) || s.mailbox.contains(verdict.next)
            &&& verdict.next == s.idle ==> forall|t: usize|
                #![trigger s.board.threads[t as int]]
                (waits(s.board.ready, t) || s.mailbox.contains(t)) && t < s.board.threads.len()
                    && verdict.donated != Some(t) && s.current != Some(t)
                    && s.board.threads[t as int].state == ThreadState::Ready ==> leaving(
                    s.board.threads[t as int],
                )
            &&& s.current matches Some(c) ==> s.board.threads[c as int].state
                == ThreadState::Running && !leaving(s.board.threads[c as int]) && c != s.idle
                ==> verdict.next != s.idle
        }),
{
    let (verdict, after) = scheduled(s, reason, requester, now, decayed, quantum);
    let q = lined_up(s, reason, requester, now, decayed);
    let (found, chosen) = picked(q);
    lemma_lined_up(s, reason, requester, now, decayed);
    law_first_runnable_is_chosen(q);
    lemma_picked_known(q);
    lemma_line_waits(s, reason, requester, now, decayed, s.idle);
    if let Some(next) = found {
        lemma_line_waits(s, reason, requester, now, decayed, next);
    }
    if let Some(c) = s.current {
        lemma_picked_waits(q, c);
        if s.board.threads[c as int].state == ThreadState::Running {
            lemma_lined_up_current(s, reason, requester, now, decayed, c);
        }
    }
    if verdict.next == s.idle {
        assert(found is None);
        assert forall|t: usize|
            #![trigger s.board.threads[t as int]]
            (waits(s.board.ready, t) || s.mailbox.contains(t)) && t < s.board.threads.len()
                && verdict.donated != Some(t) && s.current != Some(t)
                && s.board.threads[t as int].state == ThreadState::Ready implies leaving(
            s.board.threads[t as int],
        ) by {
            let p = if waits(s.board.ready, t) {
                let (p, i) = choose|p: int, i: int|
                    0 <= p < s.board.ready.len() && 0 <= i < s.board.ready[p].len()
                        && #[trigger] s.board.ready[p][i] == t;
                assert(s.board.ready[p].contains(t));
                p
            } else {
                s.board.threads[t as int].effective_priority as int
            };
            lemma_lined_up_thread(s, reason, requester, now, decayed, t, p);
            let i = q.ready[p].index_of(t);
            assert(!runnable(q.threads[q.ready[p][i] as int]));
        }
    }
}

/// A thread is given away exactly if another processor asks for one, at least
/// two wait and one of them may go. It is the first that may go of the lowest
/// priority that has such a thread, it does not wait here any more and belongs
/// to the processor that asked, and all others stay.
pub proof fn law_lowest_thread_is_given_away(
    ready: Ready,
    threads: Seq<Thread>,
    core: u64,
    requester: Option<u64>,
)
    requires
        ready.len() == 32,
        known(ready, threads.len()),
    ensures
        match donation(ready, threads, core, requester) {
            (Some(t), left, after) => {
                &&& requester is Some && requester->0 != core
                &&& total(ready) >= 2
                &&& threads[t as int].migratable
                &&& after == threads.update(
                    t as int,
                    Thread { assigned_core: requester->0, ..threads[t as int] },
                )
                &&& total(left) + 1 == total(ready)
                &&& exists|p: int, i: int| #[trigger] is_last_to_go(ready, threads, p, i)
                    && ready[p][i] == t && left == ready.update(p, ready[p].remove(i))
            },
            (None, left, after) => {
                &&& left == ready
                &&& after == threads
                &&& requester is None || requester->0 == core || total(ready) < 2 || forall|
                    p: int,
                    i: int,
                |
                    0 <= p < 32 && 0 <= i < ready[p].len() ==> !threads[#[trigger] ready[p][i] as int].migratable
            },
        },
{
    lemma_last_migratable(threads, ready, 32);
    lemma_last_to_go(threads, ready, 32);
    if let Some((p, i)) = last_migratable(threads, ready, 32) {
        lemma_total(ready, p, ready[p].remove(i));
        assert(is_last_to_go(ready, threads, p, i));
    }
}

/// The thread at place `i` of queue `p` is the first in its queue that may go to
/// another processor, and no thread of a lower priority may.
pub open spec fn is_last_to_go(ready: Ready, threads: Seq<Thread>, p: int, i: int) -> bool {
    &&& 0 <= p < ready.len()
    &&& 0 <= i < ready[p].len()
    &&& threads[ready[p][i] as int].migratable
    &&& forall|q: int, j: int|
        p <= q < ready.len() && 0 <= j < ready[q].len() && (q > p || j < i)
            ==> !threads[#[trigger] ready[q][j] as int].migratable
}

proof fn lemma_last_to_go(threads: Seq<Thread>, ready: Ready, n: int)
    requires
        n <= ready.len(),
    ensures
        match last_migratable(threads, ready, n) {
            Some((p, i)) => {
                &&& 0 <= p < n
                &&& 0 <= i < ready[p].len()
                &&& forall|q: int, j: int|
                    p <= q < n && 0 <= j < ready[q].len() && (q > p || j < i)
                        ==> !threads[#[trigger] ready[q][j] as int].migratable
            },
            None => forall|q: int, j: int|
                0 <= q < n && 0 <= j < ready[q].len()
                    ==> !threads[#[trigger] ready[q][j] as int].migratable,
        },
    decreases n,
{
    if n > 0 {
        lemma_first_to_go(threads, ready[n - 1], 0);
        lemma_last_to_go(threads, ready, n - 1);
    }
}

proof fn lemma_first_to_go(threads: Seq<Thread>, queue: Seq<usize>, from: int)
    requires
        0 <= from,
    ensures
        match migratable_in(threads, queue, from) {
            Some(i) => from <= i < queue.len() && forall|j: int|
                from <= j < i ==> !threads[#[trigger] queue[j] as int].migratable,
            None => forall|j: int|
                from <= j < queue.len() ==> !threads[#[trigger] queue[j] as int].migratable,
        },
    decreases queue.len() - from,
{
    if from < queue.len() {
        lemma_first_to_go(threads, queue, from + 1);
    }
}

/// A thread that exits has terminated with the code that it gave, which no
/// other thread is changed by. It is neither chosen again nor does it wait, and
/// what it exited with stays.
pub proof fn law_exited_thread_is_done(
    s: Scene,
    exit_code: u32,
    requester: Option<u64>,
    now: u64,
    decayed: u8,
    quantum: u64,
    c: usize,
    other: int,
)
    requires
        scene_wf(s),
        orderly(s),
        decayed < 32,
        s.current == Some(c),
        c != s.idle,
        s.board.threads[c as int].state == ThreadState::Running,
        s.board.threads[c as int].exit_code is None,
        0 <= other < s.board.threads.len(),
    ensures
        ({
            let threads = exited(s.board.threads, s.current, exit_code);
            let gone = Scene { board: Board { threads, ..s.board }, ..s };
            let (verdict, after) = scheduled(
                gone,
                ScheduleReason::Terminated,
                requester,
                now,
                decayed,
                quantum,
            );
            let new = after.board.threads[c as int];
            &&& other != c ==> threads[other] == s.board.threads[other]
            &&& verdict.next != c
            &&& !waits(after.board.ready, c)
            &&& new.state == ThreadState::Terminated
            &&& new.exit_code == Some(exit_code)
            &&& new.process == s.board.threads[c as int].process
        }),
{
    let reason = ScheduleReason::Terminated;
    let gone = Scene {
        board: Board { threads: exited(s.board.threads, s.current, exit_code), ..s.board },
        ..s
    };
    assert(!waits(s.board.ready, c) && !s.mailbox.contains(c));
    assert forall|i: int| 0 <= i < s.mailbox.len() implies #[trigger] s.mailbox[i] != c by {
        assert(s.mailbox.contains(s.mailbox[i]));
    }
    let (donated, ready, threads) = donation(
        gone.board.ready,
        gone.board.threads,
        gone.core,
        requester,
    );
    lemma_last_migratable(gone.board.threads, gone.board.ready, 32);
    if let Some((x, i)) = last_migratable(gone.board.threads, gone.board.ready, 32) {
        lemma_known_less(gone.board.ready, x, i, gone.board.threads.len());
        lemma_removed_once(gone.board.ready, x, i);
        assert(waits(gone.board.ready, gone.board.ready[x][i]));
    }
    let (_, stopped_threads) = stopped(threads, gone.current, reason, now, decayed);
    let b = Board { ready, threads: stopped_threads, graves: Seq::empty() };
    lemma_drained(b, gone.mailbox, now);
    lemma_drained_waits(b, gone.mailbox, now, c);
    let q = lined_up(gone, reason, requester, now, decayed);
    lemma_lined_up(gone, reason, requester, now, decayed);
    lemma_picked_keeps(q, c);
    lemma_picked(q);
    lemma_picked_known(q);
    lemma_buried_stays(q, c);
    lemma_less_waits(q, c);
}

/// The address space is changed for a thread of another process, and for any
/// thread if none ran before or the one that ran is gone. Two threads of one
/// process share it.
pub proof fn law_space_follows_the_process(
    threads: Seq<Thread>,
    prev: Option<usize>,
    next: usize,
    prev_retired: bool,
)
    ensures
        prev is None ==> space_changes(threads, prev, next, prev_retired),
        prev_retired ==> space_changes(threads, prev, next, prev_retired),
        prev is Some && !prev_retired ==> (space_changes(threads, prev, next, prev_retired)
            <==> threads[prev->0 as int].process != threads[next as int].process),
{
}

} // verus!
