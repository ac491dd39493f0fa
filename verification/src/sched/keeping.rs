//! What becomes of the threads of a processor when the next one is chosen.

use crate::sched::scheduler::{
    donation, drained, fallback, first_ready, known, last_migratable, lemma_drained,
    lemma_first_ready, lemma_known_less, lemma_known_rest, lemma_last_migratable, lemma_picked,
    lemma_total, made_way, picked, prioritized, pushed, retired, runnable, scene_wf, scheduled,
    should_exit, stopped, total, Board, Ready, Scene, ScheduleReason, Thread, ThreadState,
};
use vstd::prelude::*;

verus! {

/// A thread waits in a queue.
pub open spec fn waits(ready: Ready, t: usize) -> bool {
    exists|p: int, i: int|
        0 <= p < ready.len() && 0 <= i < ready[p].len() && #[trigger] ready[p][i] == t
}

/// A thread that has not exited is ready.
pub open spec fn alive(thread: Thread) -> bool {
    thread.state == ThreadState::Ready && thread.exit_code is None
}

proof fn lemma_pushed_waits(b: Board, item: usize, now: u64, t: usize)
    requires
        b.ready.len() == 32,
        item < b.threads.len(),
        prioritized(b.threads),
    ensures
        waits(pushed(b, item, now).ready, t) == (waits(b.ready, t) || t == item),
{
    let p = b.threads[item as int].effective_priority as int;
    let after = pushed(b, item, now).ready;
    assert(b.threads[item as int].effective_priority < 32);
    let n = b.ready[p].len() as int;
    if t == item {
        assert(after[p][n] == t);
    }
    if waits(b.ready, t) {
        let (q, i) = choose|q: int, i: int|
            0 <= q < b.ready.len() && 0 <= i < b.ready[q].len() && #[trigger] b.ready[q][i] == t;
        assert(after[q][i] == t);
    }
    if waits(after, t) && t != item {
        let (q, i) = choose|q: int, i: int|
            0 <= q < after.len() && 0 <= i < after[q].len() && #[trigger] after[q][i] == t;
        assert(b.ready[q][i] == t);
    }
}

pub proof fn lemma_drained_waits(b: Board, mailbox: Seq<usize>, now: u64, t: usize)
    requires
        b.ready.len() == 32,
        known(b.ready, b.threads.len()),
        prioritized(b.threads),
        forall|i: int| 0 <= i < mailbox.len() ==> #[trigger] mailbox[i] < b.threads.len(),
        t < b.threads.len(),
    ensures
        ({
            let after = drained(b, mailbox, now);
            &&& waits(after.ready, t) == (waits(b.ready, t) || mailbox.contains(t))
            &&& after.threads[t as int] == (Thread {
                ready_since: after.threads[t as int].ready_since,
                ..b.threads[t as int]
            })
            &&& after.graves == b.graves
        }),
    decreases mailbox.len(),
{
    if mailbox.len() > 0 {
        let item = mailbox[0];
        let next = pushed(b, item, now);
        let rest = mailbox.skip(1);
        assert forall|i: int| 0 <= i < rest.len() implies #[trigger] rest[i] < b.threads.len() by {
            assert(rest[i] == mailbox[i + 1]);
        }
        lemma_pushed_waits(b, item, now, t);
        lemma_drained_waits(next, rest, now, t);
        if mailbox.contains(t) && t != item {
            let i = mailbox.index_of(t);
            assert(rest[i - 1] == t);
        }
        if rest.contains(t) {
            let i = rest.index_of(t);
            assert(mailbox[i + 1] == t);
        }
    }
}

proof fn lemma_rest_waits(ready: Ready, p: int, t: usize)
    requires
        0 <= p < ready.len(),
        ready[p].len() > 0,
    ensures
        waits(ready, t) && t != ready[p][0] ==> waits(ready.update(p, ready[p].skip(1)), t),
        waits(ready.update(p, ready[p].skip(1)), t) ==> waits(ready, t),
{
    let after = ready.update(p, ready[p].skip(1));
    if waits(ready, t) && t != ready[p][0] {
        let (q, i) = choose|q: int, i: int|
            0 <= q < ready.len() && 0 <= i < ready[q].len() && #[trigger] ready[q][i] == t;
        if q == p {
            assert(after[p][i - 1] == t);
        } else {
            assert(after[q][i] == t);
        }
    }
    if waits(after, t) {
        let (q, i) = choose|q: int, i: int|
            0 <= q < after.len() && 0 <= i < after[q].len() && #[trigger] after[q][i] == t;
        if q == p {
            assert(ready[p][i + 1] == t);
        } else {
            assert(ready[q][i] == t);
        }
    }
}

pub proof fn lemma_picked_waits(b: Board, t: usize)
    requires
        known(b.ready, b.threads.len()),
        t < b.threads.len(),
    ensures
        ({
            let (found, after) = picked(b);
            &&& after.ready.len() == b.ready.len()
            &&& prioritized(b.threads) ==> prioritized(after.threads)
            &&& b.graves.contains(t) ==> after.graves.contains(t)
            &&& waits(b.ready, t) && alive(b.threads[t as int]) ==> found == Some(t) || waits(
                after.ready,
                t,
            ) || after.graves.contains(t)
            &&& b.threads[t as int].state == ThreadState::Running && !should_exit(
                b.threads[t as int],
            ) ==> after.threads[t as int] == b.threads[t as int]
            &&& found != Some(t) && after.threads[t as int].state == ThreadState::Running
                ==> b.threads[t as int].state == ThreadState::Running
        }),
    decreases total(b.ready),
{
    lemma_first_ready(b.ready, 0);
    if let Some(p) = first_ready(b.ready, 0) {
        let item = b.ready[p][0];
        let thread = b.threads[item as int];
        let queue = b.ready[p].skip(1);
        let ready = b.ready.update(p, queue);
        lemma_total(b.ready, p, queue);
        lemma_known_rest(b.ready, p, b.threads.len());
        lemma_rest_waits(b.ready, p, t);
        if !runnable(thread) {
            if should_exit(thread) && retired(thread, 0) is Some {
                let rest = Board {
                    ready,
                    threads: b.threads.update(item as int, retired(thread, 0)->0),
                    graves: b.graves.push(item),
                };
                assert(picked(b) == picked(rest));
                lemma_picked_waits(rest, t);
                assert(rest.graves[b.graves.len() as int] == item);
                if b.graves.contains(t) {
                    let i = b.graves.index_of(t);
                    assert(rest.graves[i] == t);
                }
            } else {
                let rest = Board { ready, ..b };
                assert(picked(b) == picked(rest));
                lemma_picked_waits(rest, t);
            }
        }
    }
}

/// No thread is lost: one that was ready, or ran, runs next, waits in a queue,
/// goes to another processor, or has exited. The idle thread never waits.
pub proof fn law_no_thread_is_lost(
    s: Scene,
    reason: ScheduleReason,
    requester: Option<u64>,
    now: u64,
    decayed: u8,
    quantum: u64,
    t: usize,
)
    requires
        scene_wf(s),
        decayed < 32,
        t < s.board.threads.len(),
        s.board.threads[t as int].exit_code is None,
        ({
            ||| (waits(s.board.ready, t) || s.mailbox.contains(t)) && s.board.threads[t as int].state
                == ThreadState::Ready
            ||| s.current == Some(t) && t != s.idle && s.board.threads[t as int].state
                == ThreadState::Running
        }),
    ensures
        ({
            let (verdict, after) = scheduled(s, reason, requester, now, decayed, quantum);
            ||| verdict.next == t
            ||| waits(after.board.ready, t)
            ||| verdict.donated == Some(t)
            ||| verdict.graves.contains(t)
        }),
{
    let (verdict, after) = scheduled(s, reason, requester, now, decayed, quantum);
    let (donated, ready, threads) = donation(s.board.ready, s.board.threads, s.core, requester);
    lemma_last_migratable(s.board.threads, s.board.ready, 32);
    if let Some((p, i)) = last_migratable(s.board.threads, s.board.ready, 32) {
        lemma_known_less(s.board.ready, p, i, s.board.threads.len());
        assert(s.board.ready[p][i] < s.board.threads.len());
        if waits(s.board.ready, t) && t != s.board.ready[p][i] {
            lemma_left_waits(s.board.ready, p, i, t);
        }
    }
    let (prev_retired, stopped_threads) = stopped(threads, s.current, reason, now, decayed);
    let b = Board { ready, threads: stopped_threads, graves: Seq::empty() };
    lemma_drained(b, s.mailbox, now);
    lemma_drained_waits(b, s.mailbox, now, t);
    let queued = drained(b, s.mailbox, now);
    lemma_picked(queued);
    lemma_picked_waits(queued, t);
    let (found, chosen) = picked(queued);
    let (next, wants_work, last) = match found {
        Some(next) => (next, false, chosen),
        None => {
            let (next, wants_work, threads) = fallback(
                chosen.threads,
                s.current,
                prev_retired,
                s.idle,
            );
            (next, wants_work, Board { threads, ..chosen })
        },
    };
    let done = made_way(last, s.current, prev_retired, next, s.idle, now);
    assert(after.board.ready == done.ready);
    if let Some(c) = s.current {
        let waiting = Board {
            threads: last.threads.update(
                c as int,
                Thread { state: ThreadState::Ready, ..last.threads[c as int] },
            ),
            ..last
        };
        assert(prioritized(chosen.threads));
        assert(prioritized(waiting.threads));
        lemma_pushed_waits(waiting, c, now, t);
    }
    assert(verdict.graves == if prev_retired {
        done.graves.push(s.current->0)
    } else {
        done.graves
    });
    if chosen.graves.contains(t) {
        let i = chosen.graves.index_of(t);
        assert(verdict.graves[i] == t);
    }
    if prev_retired {
        assert(verdict.graves.last() == s.current->0);
    }
}

proof fn lemma_left_waits(ready: Ready, p: int, i: int, t: usize)
    requires
        0 <= p < ready.len(),
        0 <= i < ready[p].len(),
        waits(ready, t),
        t != ready[p][i],
    ensures
        waits(ready.update(p, ready[p].remove(i)), t),
{
    let after = ready.update(p, ready[p].remove(i));
    let (q, j) = choose|q: int, j: int|
        0 <= q < ready.len() && 0 <= j < ready[q].len() && #[trigger] ready[q][j] == t;
    if q == p && j > i {
        assert(after[q][j - 1] == t);
    } else {
        assert(after[q][j] == t);
    }
}

/// No thread waits twice.
pub open spec fn once(ready: Ready) -> bool {
    forall|p: int, i: int, q: int, j: int|
        0 <= p < ready.len() && 0 <= i < ready[p].len() && 0 <= q < ready.len() && 0 <= j
            < ready[q].len() && #[trigger] ready[p][i] == #[trigger] ready[q][j] ==> p == q && i
            == j
}

/// A thread waits in the queues or in the mailbox, and in one place only. The
/// idle thread does not wait, nor does one that runs.
pub open spec fn orderly(s: Scene) -> bool {
    &&& once(s.board.ready)
    &&& s.mailbox.no_duplicates()
    &&& forall|t: usize| #[trigger] s.mailbox.contains(t) ==> !waits(s.board.ready, t)
    &&& forall|t: usize|
        #![trigger waits(s.board.ready, t)]
        #![trigger s.mailbox.contains(t)]
        waits(s.board.ready, t) || s.mailbox.contains(t) ==> t != s.idle
            && s.board.threads[t as int].state != ThreadState::Running
}

pub proof fn lemma_removed_once(ready: Ready, p: int, i: int)
    requires
        once(ready),
        0 <= p < ready.len(),
        0 <= i < ready[p].len(),
    ensures
        ({
            let after = ready.update(p, ready[p].remove(i));
            &&& once(after)
            &&& !waits(after, ready[p][i])
            &&& forall|t: usize| #[trigger] waits(after, t) ==> waits(ready, t)
        }),
{
    let after = ready.update(p, ready[p].remove(i));
    assert forall|q: int, j: int|
        0 <= q < after.len() && 0 <= j < after[q].len() implies #[trigger] after[q][j]
        == ready[q][if q == p && j >= i {
        j + 1
    } else {
        j
    }] by {}
    assert forall|t: usize| #[trigger] waits(after, t) implies waits(ready, t) && t
        != ready[p][i] by {
        let (q, j) = choose|q: int, j: int|
            0 <= q < after.len() && 0 <= j < after[q].len() && #[trigger] after[q][j] == t;
        let k = if q == p && j >= i {
            j + 1
        } else {
            j
        };
        assert(ready[q][k] == t);
    }
}

proof fn lemma_pushed_once(b: Board, item: usize, now: u64)
    requires
        b.ready.len() == 32,
        item < b.threads.len(),
        prioritized(b.threads),
        once(b.ready),
        !waits(b.ready, item),
    ensures
        once(pushed(b, item, now).ready),
{
    let p = b.threads[item as int].effective_priority as int;
    assert(b.threads[item as int].effective_priority < 32);
    let n = b.ready[p].len() as int;
    let after = pushed(b, item, now).ready;
    assert forall|q: int, j: int|
        0 <= q < after.len() && 0 <= j < after[q].len() && !(q == p && j == n) implies #[trigger] after[q][j]
        == b.ready[q][j] && after[q][j] != item by {
        assert(b.ready[q][j] == after[q][j]);
    }
}

pub proof fn lemma_drained_once(b: Board, mailbox: Seq<usize>, now: u64)
    requires
        b.ready.len() == 32,
        known(b.ready, b.threads.len()),
        prioritized(b.threads),
        forall|i: int| 0 <= i < mailbox.len() ==> #[trigger] mailbox[i] < b.threads.len(),
        once(b.ready),
        mailbox.no_duplicates(),
        forall|t: usize| #[trigger] mailbox.contains(t) ==> !waits(b.ready, t),
    ensures
        once(drained(b, mailbox, now).ready),
    decreases mailbox.len(),
{
    if mailbox.len() > 0 {
        let item = mailbox[0];
        let next = pushed(b, item, now);
        let rest = mailbox.skip(1);
        assert(mailbox.contains(item));
        lemma_pushed_once(b, item, now);
        assert forall|i: int| 0 <= i < rest.len() implies #[trigger] rest[i] < b.threads.len() by {
            assert(rest[i] == mailbox[i + 1]);
        }
        assert(rest.no_duplicates());
        assert forall|t: usize| #[trigger] rest.contains(t) implies !waits(next.ready, t) by {
            let i = rest.index_of(t);
            assert(mailbox[i + 1] == t);
            assert(mailbox.contains(t));
            lemma_pushed_waits(b, item, now, t);
        }
        lemma_drained_once(next, rest, now);
    }
}

proof fn lemma_picked_once(b: Board)
    requires
        known(b.ready, b.threads.len()),
        once(b.ready),
    ensures
        ({
            let (found, after) = picked(b);
            &&& once(after.ready)
            &&& found matches Some(next) ==> waits(b.ready, next) && !waits(after.ready, next)
            &&& forall|t: usize| #[trigger] waits(after.ready, t) ==> waits(b.ready, t)
                && after.threads[t as int] == b.threads[t as int]
        }),
    decreases total(b.ready),
{
    lemma_first_ready(b.ready, 0);
    if let Some(p) = first_ready(b.ready, 0) {
        let item = b.ready[p][0];
        let thread = b.threads[item as int];
        let queue = b.ready[p].skip(1);
        let ready = b.ready.update(p, queue);
        assert(queue =~= b.ready[p].remove(0));
        lemma_removed_once(b.ready, p, 0);
        lemma_total(b.ready, p, queue);
        lemma_known_rest(b.ready, p, b.threads.len());
        assert(item < b.threads.len());
        assert(waits(b.ready, item));
        if !runnable(thread) {
            let rest = if should_exit(thread) && retired(thread, 0) is Some {
                Board {
                    ready,
                    threads: b.threads.update(item as int, retired(thread, 0)->0),
                    graves: b.graves.push(item),
                }
            } else {
                Board { ready, ..b }
            };
            assert(picked(b) == picked(rest));
            lemma_picked_once(rest);
            let after = picked(b).1;
            assert forall|t: usize| #[trigger] waits(after.ready, t) implies waits(b.ready, t)
                && after.threads[t as int] == b.threads[t as int] by {
                assert(waits(rest.ready, t));
            }
        }
    }
}

/// Threads that each wait in one place do so after the next one has been
/// chosen too, and one that was given away does not wait here any more.
#[verifier::spinoff_prover]
#[verifier::rlimit(40)]
pub proof fn law_threads_wait_once(
    s: Scene,
    reason: ScheduleReason,
    requester: Option<u64>,
    now: u64,
    decayed: u8,
    quantum: u64,
)
    requires
        scene_wf(s),
        orderly(s),
        decayed < 32,
    ensures
        ({
            let (verdict, after) = scheduled(s, reason, requester, now, decayed, quantum);
            &&& orderly(after)
            &&& !waits(after.board.ready, verdict.next)
            &&& verdict.donated matches Some(t) ==> !waits(after.board.ready, t)
        }),
{
    let (verdict, after) = scheduled(s, reason, requester, now, decayed, quantum);
    let (donated, ready, threads) = donation(s.board.ready, s.board.threads, s.core, requester);
    lemma_last_migratable(s.board.threads, s.board.ready, 32);
    if let Some((p, i)) = last_migratable(s.board.threads, s.board.ready, 32) {
        lemma_known_less(s.board.ready, p, i, s.board.threads.len());
        lemma_removed_once(s.board.ready, p, i);
        assert(s.board.ready[p][i] < s.board.threads.len());
        assert(waits(s.board.ready, s.board.ready[p][i]));
    }
    assert(once(ready));
    assert forall|t: usize| #[trigger] waits(ready, t) implies waits(s.board.ready, t) by {}
    let (prev_retired, stopped_threads) = stopped(threads, s.current, reason, now, decayed);
    let b = Board { ready, threads: stopped_threads, graves: Seq::empty() };
    lemma_drained(b, s.mailbox, now);
    lemma_drained_once(b, s.mailbox, now);
    let queued = drained(b, s.mailbox, now);
    assert forall|t: usize| #[trigger] waits(queued.ready, t) implies t < queued.threads.len() && (waits(
        s.board.ready,
        t,
    ) || s.mailbox.contains(t)) && donated != Some(t) && t != s.idle && queued.threads[t as int].state
        != ThreadState::Running by {
        let (q, j) = choose|q: int, j: int|
            0 <= q < queued.ready.len() && 0 <= j < queued.ready[q].len()
                && #[trigger] queued.ready[q][j] == t;
        assert(queued.ready[q][j] < queued.threads.len());
        lemma_drained_waits(b, s.mailbox, now, t);
    }
    lemma_picked_once(queued);
    lemma_picked(queued);
    let (found, chosen) = picked(queued);
    let (next, wants_work, last) = match found {
        Some(next) => (next, false, chosen),
        None => {
            let (next, wants_work, threads) = fallback(
                chosen.threads,
                s.current,
                prev_retired,
                s.idle,
            );
            (next, wants_work, Board { threads, ..chosen })
        },
    };
    lemma_picked_waits(queued, s.idle);
    assert forall|t: usize| #[trigger] waits(last.ready, t) implies t != s.idle && donated != Some(t)
        && t < last.threads.len() && last.threads[t as int].state != ThreadState::Running by {
        assert(waits(queued.ready, t));
    }
    assert(!waits(last.ready, next)) by {
        if waits(last.ready, next) {
            assert(waits(queued.ready, next));
        }
    }
    if let Some(c) = s.current {
        lemma_picked_waits(queued, c);
        lemma_drained_waits(b, s.mailbox, now, c);
        if c != next && last.threads[c as int].state == ThreadState::Running {
            assert(queued.threads[c as int].state == ThreadState::Running);
            assert(s.board.threads[c as int].state == ThreadState::Running);
            assert(donated != Some(c));
        }
    }
    lemma_way_once(last, s.current, prev_retired, next, s.idle, donated, now);
    let done = made_way(last, s.current, prev_retired, next, s.idle, now);
    assert(after.board.ready == done.ready);
    assert(next < done.threads.len());
    assert forall|t: usize| #[trigger] waits(after.board.ready, t) implies t != s.idle
        && after.board.threads[t as int].state != ThreadState::Running by {
        assert(waits(done.ready, t));
        assert(after.board.threads[t as int] == done.threads[t as int]);
    }
    assert forall|t: usize| !(#[trigger] after.mailbox.contains(t)) by {}
}

proof fn lemma_way_once(
    last: Board,
    current: Option<usize>,
    prev_retired: bool,
    next: usize,
    idle: usize,
    donated: Option<usize>,
    now: u64,
)
    requires
        last.ready.len() == 32,
        prioritized(last.threads),
        current matches Some(c) ==> c < last.threads.len(),
        current matches Some(c) ==> c != next && last.threads[c as int].state
            == ThreadState::Running ==> donated != Some(c),
        once(last.ready),
        !waits(last.ready, next),
        forall|t: usize| #[trigger] waits(last.ready, t) ==> t != idle && donated != Some(t) && t
            < last.threads.len() && last.threads[t as int].state != ThreadState::Running,
    ensures
        ({
            let done = made_way(last, current, prev_retired, next, idle, now);
            &&& once(done.ready)
            &&& forall|t: usize| #[trigger] waits(done.ready, t) ==> t != idle && t != next
                && donated != Some(t) && t < done.threads.len() && done.threads[t as int].state
                != ThreadState::Running
        }),
{
    if let Some(c) = current {
        let waiting = Board {
            threads: last.threads.update(
                c as int,
                Thread { state: ThreadState::Ready, ..last.threads[c as int] },
            ),
            ..last
        };
        assert(prioritized(waiting.threads));
        if c != next && last.threads[c as int].state == ThreadState::Running {
            assert(!waits(last.ready, c));
            lemma_pushed_once(waiting, c, now);
        }
        assert forall|t: usize| #[trigger] waits(pushed(waiting, c, now).ready, t) implies waits(
            last.ready,
            t,
        ) || t == c by {
            lemma_pushed_waits(waiting, c, now, t);
        }
    }
}

} // verus!
