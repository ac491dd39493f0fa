//! The scheduler of one processor.

use vstd::prelude::*;
use vstd::std_specs::bits::{axiom_u32_trailing_zeros, u32_trailing_zeros};

verus! {

pub const DEFAULT_QUANTUM: u64 = 10_000_000;

/// How many priorities there are; zero is the highest.
pub const PRIORITIES: usize = 32;

pub const IDLE_PRIORITY: u8 = 31;

#[derive(Debug, Clone, Copy, PartialEq, Eq, Structural)]
pub enum ScheduleReason {
    /// Running thread consumed its complete quantum
    QuantumExpired,
    /// Running thread voluntarily yielded
    Yield,
    /// Running thread transitioned to blocked
    Blocked,
    /// Running thread transitioned to terminated
    Terminated,
    /// Timer event interrupt before quantum expired
    TimerEvent,
    /// Another CPU requested that this CPU reconsider scheduling
    RescheduleIpi,
}

#[derive(Debug, Clone, Copy, PartialEq, Eq, Structural)]
pub enum ThreadState {
    Ready,
    Running,
    Blocked,
    Terminated,
}

/// What the scheduler knows of a thread.
#[derive(Debug, Clone, Copy, PartialEq, Eq, Structural)]
pub struct Thread {
    pub state: ThreadState,
    pub base_priority: u8,
    pub effective_priority: u8,
    pub last_started: u64,
    pub total_runtime: u64,
    pub ready_since: u64,
    pub quantum_expiry: u64,
    pub process: u64,
    pub process_terminating: bool,
    pub cancel_requested: bool,
    pub migratable: bool,
    pub assigned_core: u64,
    /// The code that the thread has exited with.
    pub exit_code: Option<u32>,
}

impl Thread {
    /// Moves the thread from one state to another, if it is in the first.
    pub fn transition(&mut self, from: ThreadState, to: ThreadState) -> (r: Result<(), ()>)
        ensures
            if old(self).state == from {
                r is Ok && *final(self) == (Thread { state: to, ..*old(self) })
            } else {
                r is Err && *final(self) == *old(self)
            },
    {
        if self.state == from {
            self.state = to;
            Ok(())
        } else {
            Err(())
        }
    }
}

pub open spec fn plus(a: u64, b: int) -> u64 {
    if a + b > u64::MAX {
        u64::MAX
    } else {
        (a + b) as u64
    }
}

/// A thread after it has run until now.
pub open spec fn accounted(thread: Thread, reason: ScheduleReason, now: u64, decayed: u8) -> Thread {
    Thread {
        total_runtime: if thread.last_started != 0 && now > thread.last_started {
            plus(thread.total_runtime, now - thread.last_started)
        } else {
            thread.total_runtime
        },
        effective_priority: if reason == ScheduleReason::QuantumExpired {
            decayed
        } else {
            thread.effective_priority
        },
        ..thread
    }
}

/// Adds the time since a thread was started to its run time. A thread that
/// has used up its quantum takes on the priority `decayed`.
pub fn account_running_thread(thread: &mut Thread, reason: ScheduleReason, now: u64, decayed: u8)
    ensures
        *final(thread) == accounted(*old(thread), reason, now, decayed),
{
    if thread.last_started != 0 {
        thread.total_runtime =
        thread.total_runtime.saturating_add(now.saturating_sub(thread.last_started));
    }
    if reason == ScheduleReason::QuantumExpired {
        thread.effective_priority = decayed;
    }
}

pub open spec fn refreshes(
    next: usize,
    prev: Option<usize>,
    reason: ScheduleReason,
    quantum_expiry: u64,
    now: u64,
) -> bool {
    prev != Some(next) || reason == ScheduleReason::QuantumExpired || quantum_expiry <= now
}

/// A thread starts a new quantum when it was not the one that ran, or has used
/// its quantum up.
pub fn should_refresh_quantum(
    next_thread: usize,
    prev_thread: Option<usize>,
    reason: ScheduleReason,
    quantum_expiry: u64,
    now: u64,
) -> (r: bool)
    ensures
        r == refreshes(next_thread, prev_thread, reason, quantum_expiry, now),
{
    let same = match prev_thread {
        Some(prev) => prev == next_thread,
        None => false,
    };
    !same || reason == ScheduleReason::QuantumExpired || quantum_expiry <= now
}

pub open spec fn should_exit(thread: Thread) -> bool {
    thread.cancel_requested || thread.process_terminating
}

/// A thread after it has exited; nothing when it already had.
pub open spec fn retired(thread: Thread, exit_code: u32) -> Option<Thread> {
    if thread.state == ThreadState::Terminated || thread.exit_code is Some {
        None
    } else {
        Some(Thread { state: ThreadState::Terminated, exit_code: Some(exit_code), ..thread })
    }
}

fn retire(thread: &mut Thread, exit_code: u32) -> (r: bool)
    ensures
        match retired(*old(thread), exit_code) {
            Some(after) => r && *final(thread) == after,
            None => !r && *final(thread) == *old(thread),
        },
{
    if thread.state == ThreadState::Terminated || thread.exit_code.is_some() {
        return false;
    }
    thread.exit_code = Some(exit_code);
    thread.state = ThreadState::Terminated;
    true
}

/// Threads that wait for something, first come first served.
pub struct TCBQueue {
    items: Vec<usize>,
}

impl View for TCBQueue {
    type V = Seq<usize>;

    closed spec fn view(&self) -> Seq<usize> {
        self.items@
    }
}

impl TCBQueue {
    pub fn new() -> (r: Self)
        ensures
            r@ == Seq::<usize>::empty(),
    {
        TCBQueue { items: Vec::new() }
    }

    pub fn len(&self) -> (r: usize)
        ensures
            r == self@.len(),
    {
        self.items.len()
    }

    pub fn push(&mut self, item: usize)
        ensures
            final(self)@ == old(self)@.push(item),
    {
        self.items.push(item);
    }

    pub fn pop(&mut self) -> (r: Option<usize>)
        ensures
            if old(self)@.len() == 0 {
                r is None && final(self)@ == old(self)@
            } else {
                r == Some(old(self)@[0]) && final(self)@ == old(self)@.skip(1)
            },
    {
        if self.items.len() == 0 {
            return None;
        }
        let r = self.items.remove(0);
        assert(self.items@ =~= old(self)@.skip(1));
        Some(r)
    }

    /// Takes the item at place `i` out.
    fn take_at(&mut self, i: usize) -> (r: usize)
        requires
            i < old(self)@.len(),
        ensures
            r == old(self)@[i as int],
            final(self)@ == old(self)@.remove(i as int),
    {
        self.items.remove(i)
    }

    fn get(&self, i: usize) -> (r: usize)
        requires
            i < self@.len(),
        ensures
            r == self@[i as int],
    {
        self.items[i]
    }
}

/// The ready threads by priority.
pub type Ready = Seq<Seq<usize>>;

/// How many threads are ready.
pub open spec fn total(ready: Ready) -> nat
    decreases ready.len(),
{
    if ready.len() == 0 {
        0
    } else {
        total(ready.drop_last()) + ready.last().len()
    }
}

pub proof fn lemma_total(ready: Ready, p: int, queue: Seq<usize>)
    requires
        0 <= p < ready.len(),
    ensures
        total(ready.update(p, queue)) == total(ready) - ready[p].len() + queue.len(),
        ready[p].len() <= total(ready),
    decreases ready.len(),
{
    let after = ready.update(p, queue);
    if p == ready.len() - 1 {
        assert(after.drop_last() =~= ready.drop_last());
    } else {
        assert(after.drop_last() =~= ready.drop_last().update(p, queue));
        lemma_total(ready.drop_last(), p, queue);
    }
}

/// The highest priority from `p` on that a thread is ready at.
pub open spec fn first_ready(ready: Ready, p: int) -> Option<int>
    decreases ready.len() - p,
{
    if p < 0 || p >= ready.len() {
        None
    } else if ready[p].len() > 0 {
        Some(p)
    } else {
        first_ready(ready, p + 1)
    }
}

/// Bit `p` of a set of priorities.
pub open spec fn active(set: u32, p: int) -> bool {
    (set >> (p as u32)) & 1u32 == 1u32
}

proof fn lemma_active(set: u32, p: u32, q: u32)
    requires
        p < 32,
        q < 32,
    ensures
        active(set | (1u32 << p), q as int) == (q == p || active(set, q as int)),
        active(set & !(1u32 << p), q as int) == (q != p && active(set, q as int)),
        !active(0, q as int),
{
    assert((((set | (1u32 << p)) >> q) & 1u32 == 1u32) == (q == p || (set >> q) & 1u32 == 1u32) && (((
    set & !(1u32 << p)) >> q) & 1u32 == 1u32) == (q != p && (set >> q) & 1u32 == 1u32) && (0u32 >> q)
        & 1u32 == 0u32) by (bit_vector)
        requires
            p < 32,
            q < 32,
    ;
}

pub struct SchedulerState {
    pub core_logical_id: u64,
    pub queue_length: usize,
    pub ready_queues: Vec<TCBQueue>,
    pub active_priorities: u32,
    pub mailbox: TCBQueue,
    pub idle_thread: Option<usize>,
    pub current_thread: Option<usize>,
}

impl SchedulerState {
    /// The ready threads by priority.
    pub open spec fn ready(&self) -> Ready {
        Seq::new(self.ready_queues@.len(), |p: int| self.ready_queues@[p]@)
    }

    /// The sizes and the set of priorities are those of the queues, and all
    /// threads are among `count`.
    pub open spec fn wf(&self, count: nat) -> bool {
        &&& self.ready_queues@.len() == 32
        &&& self.queue_length == total(self.ready())
        &&& forall|p: int|
            0 <= p < 32 ==> #[trigger] active(self.active_priorities, p) == (
            self.ready_queues@[p]@.len() > 0)
        &&& known(self.ready(), count)
        &&& forall|i: int| 0 <= i < self.mailbox@.len() ==> #[trigger] self.mailbox@[i] < count
        &&& self.idle_thread matches Some(t) ==> t < count
        &&& self.current_thread matches Some(t) ==> t < count
    }

    pub fn new() -> (r: Self)
        ensures
            r.wf(0),
            r.core_logical_id == 0,
            r.ready() == Seq::new(32, |p: int| Seq::<usize>::empty()),
            r.mailbox@ == Seq::<usize>::empty(),
            r.idle_thread is None,
            r.current_thread is None,
    {
        let mut ready_queues: Vec<TCBQueue> = Vec::new();
        let mut i: usize = 0;
        while i < PRIORITIES
            invariant
                i <= 32,
                ready_queues@.len() == i,
                forall|p: int|
                    0 <= p < i ==> (#[trigger] ready_queues@[p])@ == Seq::<usize>::empty(),
            decreases 32 - i,
        {
            ready_queues.push(TCBQueue::new());
            i += 1;
        }
        let r = SchedulerState {
            core_logical_id: 0,
            queue_length: 0,
            ready_queues,
            active_priorities: 0,
            mailbox: TCBQueue::new(),
            idle_thread: None,
            current_thread: None,
        };
        proof {
            lemma_total_empty(r.ready());
            assert forall|p: int| 0 <= p < 32 implies #[trigger] active(0, p) == (
            r.ready_queues@[p]@.len() > 0) by {
                lemma_active(0, 0, p as u32);
            }
            assert(r.ready() =~= Seq::new(32, |p: int| Seq::<usize>::empty()));
        }
        r
    }

    pub fn init_basic(&mut self, logical_id: u64)
        ensures
            *final(self) == (SchedulerState { core_logical_id: logical_id, ..*old(self) }),
    {
        self.core_logical_id = logical_id;
    }

    pub fn get_current_thread(&self) -> (r: Option<usize>)
        ensures
            r == self.current_thread,
    {
        self.current_thread
    }

    /// Puts a thread at the end of the queue of its priority.
    pub fn push(&mut self, threads: &mut Vec<Thread>, item: usize, now: u64)
        requires
            old(self).wf(old(threads)@.len()),
            item < old(threads)@.len(),
            old(threads)@[item as int].effective_priority < 32,
            old(self).queue_length < usize::MAX,
        ensures
            final(self).wf(final(threads)@.len()),
            final(self).same_but_ready(*old(self)),
            final(self).queue_length == old(self).queue_length + 1,
            final(threads)@.len() == old(threads)@.len(),
            (Board {
                ready: final(self).ready(),
                threads: final(threads)@,
                graves: Seq::empty(),
            }) == pushed(
                (Board {
                    ready: old(self).ready(),
                    threads: old(threads)@,
                    graves: Seq::empty(),
                }),
                item,
                now,
            ),
    {
        let mut thread = threads[item];
        thread.ready_since = now;
        threads.set(item, thread);
        let priority = thread.effective_priority as usize;
        let ghost before = self.ready();
        self.ready_queues[priority].push(item);
        self.queue_length = self.queue_length + 1;
        self.active_priorities = self.active_priorities | (1u32 << (priority as u32));
        proof {
            let queue = before[priority as int].push(item);
            assert(self.ready() =~= before.update(priority as int, queue));
            lemma_total(before, priority as int, queue);
            assert forall|p: int| 0 <= p < 32 implies #[trigger] active(
                self.active_priorities,
                p,
            ) == (self.ready_queues@[p]@.len() > 0) by {
                lemma_active(old(self).active_priorities, priority as u32, p as u32);
            }
            assert(known(self.ready(), threads@.len()));
        }
    }

    /// Takes the first thread of the highest priority that has one.
    pub fn pop(&mut self, threads: &Vec<Thread>) -> (r: Option<usize>)
        requires
            old(self).wf(threads@.len()),
        ensures
            final(self).wf(threads@.len()),
            final(self).same_but_ready(*old(self)),
            match first_ready(old(self).ready(), 0) {
                None => r is None && *final(self) == *old(self),
                Some(p) => {
                    &&& r == Some(old(self).ready()[p][0])
                    &&& final(self).ready() == old(self).ready().update(
                        p,
                        old(self).ready()[p].skip(1),
                    )
                },
            },
            r matches Some(t) ==> t < threads@.len(),
    {
        if self.active_priorities == 0 {
            proof {
                assert forall|p: int| 0 <= p < 32 implies (#[trigger] self.ready()[p]).len()
                    == 0 by {
                    lemma_active(0, 0, p as u32);
                    assert(!active(self.active_priorities, p));
                }
                lemma_first_ready_none(self.ready(), 0);
            }
            return None;
        }
        let highest = self.active_priorities.trailing_zeros() as usize;
        let ghost before = self.ready();
        proof {
            axiom_u32_trailing_zeros(self.active_priorities);
            assert(active(self.active_priorities, highest as int));
            assert forall|p: int| 0 <= p < highest implies (#[trigger] before[p]).len() == 0 by {
                assert((self.active_priorities >> (p as u32)) & 1u32 == 0u32);
                assert(!active(self.active_priorities, p));
            }
            lemma_first_ready_some(before, 0, highest as int);
        }
        let r = self.ready_queues[highest].pop();
        if self.ready_queues[highest].len() == 0 {
            self.active_priorities = self.active_priorities & !(1u32 << (highest as u32));
        }
        proof {
            lemma_total(before, highest as int, before[highest as int].skip(1));
        }
        self.queue_length = self.queue_length - 1;
        proof {
            let queue = before[highest as int].skip(1);
            assert(self.ready() =~= before.update(highest as int, queue));
            assert forall|p: int| 0 <= p < 32 implies #[trigger] active(
                self.active_priorities,
                p,
            ) == (self.ready_queues@[p]@.len() > 0) by {
                lemma_active(old(self).active_priorities, highest as u32, p as u32);
                assert(active(old(self).active_priorities, p) == (
                old(self).ready_queues@[p]@.len() > 0));
            }
            assert(before[highest as int][0] < threads@.len());
        }
        r
    }

    /// Everything but the ready queues is the same.
    pub open spec fn same_but_ready(&self, other: SchedulerState) -> bool {
        &&& self.core_logical_id == other.core_logical_id
        &&& self.mailbox == other.mailbox
        &&& self.idle_thread == other.idle_thread
        &&& self.current_thread == other.current_thread
    }
}

/// All threads in the queues are among `count`.
pub open spec fn known(ready: Ready, count: nat) -> bool {
    forall|p: int, i: int|
        0 <= p < ready.len() && 0 <= i < ready[p].len() ==> #[trigger] ready[p][i] < count
}

proof fn lemma_total_empty(ready: Ready)
    requires
        forall|p: int| 0 <= p < ready.len() ==> (#[trigger] ready[p]).len() == 0,
    ensures
        total(ready) == 0,
    decreases ready.len(),
{
    if ready.len() > 0 {
        assert(ready.last() == ready[ready.len() - 1]);
        assert forall|p: int| 0 <= p < ready.len() - 1 implies (
        #[trigger] ready.drop_last()[p]).len() == 0 by {
            assert(ready.drop_last()[p] == ready[p]);
        }
        lemma_total_empty(ready.drop_last());
    }
}

proof fn lemma_first_ready_none(ready: Ready, from: int)
    requires
        0 <= from,
        forall|p: int| from <= p < ready.len() ==> (#[trigger] ready[p]).len() == 0,
    ensures
        first_ready(ready, from) is None,
    decreases ready.len() - from,
{
    if from < ready.len() {
        assert(ready[from].len() == 0);
        lemma_first_ready_none(ready, from + 1);
    }
}

proof fn lemma_first_ready_some(ready: Ready, from: int, p: int)
    requires
        0 <= from <= p < ready.len(),
        forall|q: int| from <= q < p ==> (#[trigger] ready[q]).len() == 0,
        ready[p].len() > 0,
    ensures
        first_ready(ready, from) == Some(p),
    decreases p - from,
{
    if from < p {
        assert(ready[from].len() == 0);
        lemma_first_ready_some(ready, from + 1, p);
    }
}

/// The ready threads, all threads, and those that have been retired.
#[verifier::ext_equal]
pub struct Board {
    pub ready: Ready,
    pub threads: Seq<Thread>,
    pub graves: Seq<usize>,
}

/// A thread is put at the end of the queue of its priority.
pub open spec fn pushed(b: Board, item: usize, now: u64) -> Board {
    let thread = b.threads[item as int];
    let p = thread.effective_priority as int;
    Board {
        ready: b.ready.update(p, b.ready[p].push(item)),
        threads: b.threads.update(item as int, Thread { ready_since: now, ..thread }),
        graves: b.graves,
    }
}

/// All of the threads that wait in a mailbox are put into the queues.
pub open spec fn drained(b: Board, mailbox: Seq<usize>, now: u64) -> Board
    decreases mailbox.len(),
{
    if mailbox.len() == 0 {
        b
    } else {
        drained(pushed(b, mailbox[0], now), mailbox.skip(1), now)
    }
}

/// The first ready thread that is to run, by priority and then by turn. Those
/// that are to exit are retired on the way, and those that are not ready after
/// all are passed over.
pub open spec fn picked(b: Board) -> (Option<usize>, Board)
    decreases total(b.ready),
    via picked_decreases
{
    match first_ready(b.ready, 0) {
        None => (None, b),
        Some(p) => {
            let item = b.ready[p][0];
            let rest = Board { ready: b.ready.update(p, b.ready[p].skip(1)), ..b };
            let thread = b.threads[item as int];
            if should_exit(thread) {
                match retired(thread, 0) {
                    Some(gone) => picked(
                        Board {
                            threads: b.threads.update(item as int, gone),
                            graves: b.graves.push(item),
                            ..rest
                        },
                    ),
                    None => picked(rest),
                }
            } else if thread.state == ThreadState::Ready {
                (
                    Some(item),
                    Board {
                        threads: b.threads.update(
                            item as int,
                            Thread { state: ThreadState::Running, ..thread },
                        ),
                        ..rest
                    },
                )
            } else {
                picked(rest)
            }
        },
    }
}

#[via_fn]
proof fn picked_decreases(b: Board) {
    lemma_first_ready(b.ready, 0);
    if let Some(p) = first_ready(b.ready, 0) {
        lemma_total(b.ready, p, b.ready[p].skip(1));
    }
}

pub proof fn lemma_first_ready(ready: Ready, from: int)
    requires
        0 <= from,
    ensures
        first_ready(ready, from) matches Some(p) ==> from <= p < ready.len() && ready[p].len() > 0
            && forall|q: int| from <= q < p ==> (#[trigger] ready[q]).len() == 0,
    decreases ready.len() - from,
{
    if from < ready.len() && ready[from].len() == 0 {
        lemma_first_ready(ready, from + 1);
    }
}

/// The first thread of a queue from `i` on that may go to another processor.
pub open spec fn migratable_in(threads: Seq<Thread>, queue: Seq<usize>, i: int) -> Option<int>
    decreases queue.len() - i,
{
    if i < 0 || i >= queue.len() {
        None
    } else if threads[queue[i] as int].migratable {
        Some(i)
    } else {
        migratable_in(threads, queue, i + 1)
    }
}

/// The lowest priority below `n` at which a thread may go to another processor,
/// and its place in the queue.
pub open spec fn last_migratable(threads: Seq<Thread>, ready: Ready, n: int) -> Option<(int, int)>
    decreases n,
{
    if n <= 0 {
        None
    } else {
        match migratable_in(threads, ready[n - 1], 0) {
            Some(i) => Some((n - 1, i)),
            None => last_migratable(threads, ready, n - 1),
        }
    }
}

/// What the rest of the kernel has to do after a thread has been chosen.
pub struct ScheduleOutcome {
    /// The thread that runs next, and the one that ran.
    pub next: usize,
    pub prev: Option<usize>,
    /// A thread that goes to another processor's mailbox.
    pub donated: Option<usize>,
    /// Threads that have exited, to be buried.
    pub graves: Vec<usize>,
    /// Work is to be asked for from another processor.
    pub wants_work: bool,
    /// Another thread is to be switched to, and with it another address space.
    pub switches: bool,
    pub switches_space: bool,
}

/// A scheduler and its threads, as values.
#[verifier::ext_equal]
pub struct Scene {
    pub board: Board,
    pub mailbox: Seq<usize>,
    pub idle: usize,
    pub current: Option<usize>,
    pub core: u64,
}

/// What has been decided, as values.
#[verifier::ext_equal]
pub struct Verdict {
    pub next: usize,
    pub donated: Option<usize>,
    pub graves: Seq<usize>,
    pub wants_work: bool,
    pub prev_retired: bool,
}

/// A thread is given away, if another processor asks for one and at least two
/// are ready.
pub open spec fn donation(ready: Ready, threads: Seq<Thread>, core: u64, requester: Option<u64>) -> (
    Option<usize>,
    Ready,
    Seq<Thread>,
) {
    match requester {
        None => (None, ready, threads),
        Some(requester) => if requester == core || total(ready) < 2 {
            (None, ready, threads)
        } else {
            match last_migratable(threads, ready, 32) {
                None => (None, ready, threads),
                Some((p, i)) => {
                    let item = ready[p][i];
                    (
                        Some(item),
                        ready.update(p, ready[p].remove(i)),
                        threads.update(
                            item as int,
                            Thread { assigned_core: requester, ..threads[item as int] },
                        ),
                    )
                },
            }
        },
    }
}

/// The running thread is accounted for, and retired if it is to exit.
pub open spec fn stopped(
    threads: Seq<Thread>,
    current: Option<usize>,
    reason: ScheduleReason,
    now: u64,
    decayed: u8,
) -> (bool, Seq<Thread>) {
    match current {
        None => (false, threads),
        Some(c) => {
            let thread = accounted(threads[c as int], reason, now, decayed);
            if thread.state == ThreadState::Running && should_exit(thread) && retired(
                thread,
                0,
            ) is Some {
                (true, threads.update(c as int, retired(thread, 0)->0))
            } else {
                (false, threads.update(c as int, thread))
            }
        },
    }
}

/// The thread that runs when none is ready: the one that ran, if it still can,
/// or else the idle thread. The second value tells whether work is asked for.
pub open spec fn fallback(
    threads: Seq<Thread>,
    current: Option<usize>,
    prev_retired: bool,
    idle: usize,
) -> (usize, bool, Seq<Thread>) {
    if !prev_retired && current is Some && threads[current->0 as int].state
        == ThreadState::Running {
        (current->0, current->0 == idle, threads)
    } else {
        let thread = threads[idle as int];
        (
            idle,
            true,
            if thread.state == ThreadState::Ready {
                threads.update(idle as int, Thread { state: ThreadState::Running, ..thread })
            } else {
                threads
            },
        )
    }
}

/// The thread that ran makes way for the next one: it is ready again, and
/// queued unless it is the idle thread.
pub open spec fn made_way(
    b: Board,
    current: Option<usize>,
    prev_retired: bool,
    next: usize,
    idle: usize,
    now: u64,
) -> Board {
    if !prev_retired && current is Some && current->0 != next && b.threads[current->0 as int].state
        == ThreadState::Running {
        let c = current->0;
        let waiting = Board {
            threads: b.threads.update(
                c as int,
                Thread { state: ThreadState::Ready, ..b.threads[c as int] },
            ),
            ..b
        };
        if c == idle {
            waiting
        } else {
            pushed(waiting, c, now)
        }
    } else {
        b
    }
}

/// The next thread is started.
pub open spec fn started(
    thread: Thread,
    next: usize,
    prev: Option<usize>,
    reason: ScheduleReason,
    now: u64,
    quantum: u64,
) -> Thread {
    Thread {
        last_started: now,
        quantum_expiry: if thread.effective_priority == IDLE_PRIORITY {
            u64::MAX
        } else if refreshes(next, prev, reason, thread.quantum_expiry, now) {
            (now + quantum) as u64
        } else {
            thread.quantum_expiry
        },
        ..thread
    }
}

/// What a scheduler decides, and how it stands after that.
pub open spec fn scheduled(
    s: Scene,
    reason: ScheduleReason,
    requester: Option<u64>,
    now: u64,
    decayed: u8,
    quantum: u64,
) -> (Verdict, Scene) {
    let (donated, ready, threads) = donation(s.board.ready, s.board.threads, s.core, requester);
    let (prev_retired, threads) = stopped(threads, s.current, reason, now, decayed);
    let queued = drained(Board { ready, threads, graves: Seq::empty() }, s.mailbox, now);
    let (found, b) = picked(queued);
    let (next, wants_work, b) = match found {
        Some(next) => (next, false, b),
        None => {
            let (next, wants_work, threads) = fallback(b.threads, s.current, prev_retired, s.idle);
            (next, wants_work, Board { threads, ..b })
        },
    };
    let b = made_way(b, s.current, prev_retired, next, s.idle, now);
    let thread = started(b.threads[next as int], next, s.current, reason, now, quantum);
    let graves = if prev_retired {
        b.graves.push(s.current->0)
    } else {
        b.graves
    };
    (
        Verdict { next, donated, graves, wants_work, prev_retired },
        Scene {
            board: Board {
                ready: b.ready,
                threads: b.threads.update(next as int, thread),
                graves: Seq::empty(),
            },
            mailbox: Seq::empty(),
            current: Some(next),
            ..s
        },
    )
}

/// The address space changes with the thread, unless both threads belong to
/// one process.
pub open spec fn space_changes(
    threads: Seq<Thread>,
    prev: Option<usize>,
    next: usize,
    prev_retired: bool,
) -> bool {
    prev is None || prev_retired || threads[prev->0 as int].process != threads[next as int].process
}

/// Every thread has one of the priorities.
pub open spec fn prioritized(threads: Seq<Thread>) -> bool {
    forall|t: int| 0 <= t < threads.len() ==> (#[trigger] threads[t]).effective_priority < 32
}

impl SchedulerState {
    pub open spec fn board(&self, threads: Seq<Thread>) -> Board {
        Board { ready: self.ready(), threads, graves: Seq::empty() }
    }

    pub open spec fn scene(&self, threads: Seq<Thread>) -> Scene {
        Scene {
            board: self.board(threads),
            mailbox: self.mailbox@,
            idle: self.idle_thread->0,
            current: self.current_thread,
            core: self.core_logical_id,
        }
    }

    /// Takes the thread of the lowest priority that may go to another
    /// processor.
    pub fn pop_lowest_priority_migratable(&mut self, threads: &Vec<Thread>) -> (r: Option<usize>)
        requires
            old(self).wf(threads@.len()),
        ensures
            final(self).wf(threads@.len()),
            final(self).same_but_ready(*old(self)),
            match last_migratable(threads@, old(self).ready(), 32) {
                None => r is None && *final(self) == *old(self),
                Some((p, i)) => {
                    &&& r == Some(old(self).ready()[p][i])
                    &&& final(self).ready() == old(self).ready().update(
                        p,
                        old(self).ready()[p].remove(i),
                    )
                },
            },
            r matches Some(t) ==> t < threads@.len(),
    {
        let ghost ready = self.ready();
        let mut n: usize = 32;
        while n > 0
            invariant
                n <= 32,
                *self == *old(self),
                self.wf(threads@.len()),
                ready == self.ready(),
                last_migratable(threads@, ready, 32) == last_migratable(threads@, ready, n as int),
            decreases n,
        {
            let priority = n - 1;
            let len = self.ready_queues[priority].len();
            let mut i: usize = 0;
            while i < len
                invariant
                    priority < 32,
                    n == priority + 1,
                    i <= len,
                    *self == *old(self),
                    self.wf(threads@.len()),
                    ready == self.ready(),
                    len == ready[priority as int].len(),
                    last_migratable(threads@, ready, 32) == last_migratable(
                        threads@,
                        ready,
                        n as int,
                    ),
                    migratable_in(threads@, ready[priority as int], 0) == migratable_in(
                        threads@,
                        ready[priority as int],
                        i as int,
                    ),
                decreases len - i,
            {
                let item = self.ready_queues[priority].get(i);
                assert(ready[priority as int][i as int] < threads@.len());
                if threads[item].migratable {
                    let r = self.ready_queues[priority].take_at(i);
                    if self.ready_queues[priority].len() == 0 {
                        self.active_priorities =
                        self.active_priorities & !(1u32 << (priority as u32));
                    }
                    let ghost queue = ready[priority as int].remove(i as int);
                    proof {
                        lemma_total(ready, priority as int, queue);
                    }
                    self.queue_length = self.queue_length - 1;
                    proof {
                        assert(self.ready() =~= ready.update(priority as int, queue));
                        assert forall|p: int| 0 <= p < 32 implies #[trigger] active(
                            self.active_priorities,
                            p,
                        ) == (self.ready_queues@[p]@.len() > 0) by {
                            lemma_active(old(self).active_priorities, priority as u32, p as u32);
                            assert(active(old(self).active_priorities, p) == (
                            old(self).ready_queues@[p]@.len() > 0));
                        }
                        lemma_known_less(ready, priority as int, i as int, threads@.len());
                    }
                    return Some(r);
                }
                i += 1;
            }
            n = priority;
        }
        None
    }

    /// Gives a thread away, if another processor asks for one.
    fn process_steal_request(&mut self, threads: &mut Vec<Thread>, requester: Option<u64>) -> (r:
        Option<usize>)
        requires
            old(self).wf(old(threads)@.len()),
        ensures
            final(self).wf(final(threads)@.len()),
            final(self).same_but_ready(*old(self)),
            final(self).queue_length <= old(self).queue_length,
            (r, final(self).ready(), final(threads)@) == donation(
                old(self).ready(),
                old(threads)@,
                old(self).core_logical_id,
                requester,
            ),
            prioritized(old(threads)@) ==> prioritized(final(threads)@),
            final(threads)@.len() == old(threads)@.len(),
    {
        let requester = match requester {
            Some(requester) => requester,
            None => {
                return None;
            },
        };
        if requester == self.core_logical_id || self.queue_length < 2 {
            return None;
        }
        let ghost before = self.ready();
        let donated = match self.pop_lowest_priority_migratable(threads) {
            Some(donated) => donated,
            None => {
                return None;
            },
        };
        proof {
            let (p, i) = last_migratable(threads@, before, 32)->0;
            lemma_last_migratable(threads@, before, 32);
            lemma_total(before, p, before[p].remove(i));
        }
        let mut thread = threads[donated];
        thread.assigned_core = requester;
        threads.set(donated, thread);
        Some(donated)
    }

    /// Puts the threads that wait in the mailbox into the queues.
    fn drain_mailbox(&mut self, threads: &mut Vec<Thread>, now: u64)
        requires
            old(self).wf(old(threads)@.len()),
            prioritized(old(threads)@),
            old(self).queue_length + old(self).mailbox@.len() < usize::MAX,
        ensures
            final(self).wf(final(threads)@.len()),
            prioritized(final(threads)@),
            final(self).mailbox@ == Seq::<usize>::empty(),
            final(self).queue_length == old(self).queue_length + old(self).mailbox@.len(),
            final(self).core_logical_id == old(self).core_logical_id,
            final(self).idle_thread == old(self).idle_thread,
            final(self).current_thread == old(self).current_thread,
            final(threads)@.len() == old(threads)@.len(),
            final(self).board(final(threads)@) == drained(
                old(self).board(old(threads)@),
                old(self).mailbox@,
                now,
            ),
    {
        let ghost all = drained(self.board(threads@), self.mailbox@, now);
        let ghost bound = self.queue_length + self.mailbox@.len();
        loop
            invariant
                self.wf(threads@.len()),
                prioritized(threads@),
                self.queue_length + self.mailbox@.len() == bound,
                bound < usize::MAX,
                self.core_logical_id == old(self).core_logical_id,
                self.idle_thread == old(self).idle_thread,
                self.current_thread == old(self).current_thread,
                threads@.len() == old(threads)@.len(),
                drained(self.board(threads@), self.mailbox@, now) == all,
            ensures
                self.mailbox@.len() == 0,
            decreases self.mailbox@.len(),
        {
            let ghost before = *self;
            let item = match self.mailbox.pop() {
                Some(item) => item,
                None => {
                    break;
                },
            };
            proof {
                assert(self.ready() =~= before.ready());
                assert(before.mailbox@[0] == item);
                assert forall|i: int| 0 <= i < self.mailbox@.len() implies #[trigger] self.mailbox@[i]
                    < threads@.len() by {
                    assert(before.mailbox@[i + 1] == self.mailbox@[i]);
                }
                assert(self.wf(threads@.len()));
            }
            self.push(threads, item, now);
        }
        assert(self.mailbox@ =~= Seq::empty());
    }

    /// Finds the first ready thread that is to run.
    fn pick_next(&mut self, threads: &mut Vec<Thread>, graves: &mut Vec<usize>) -> (r: Option<usize>)
        requires
            old(self).wf(old(threads)@.len()),
            prioritized(old(threads)@),
        ensures
            final(self).wf(final(threads)@.len()),
            prioritized(final(threads)@),
            final(self).same_but_ready(*old(self)),
            final(self).queue_length <= old(self).queue_length,
            final(threads)@.len() == old(threads)@.len(),
            r matches Some(t) ==> t < final(threads)@.len(),
            picked(
                Board { ready: old(self).ready(), threads: old(threads)@, graves: old(graves)@ },
            ) == (
                r,
                (Board {
                    ready: final(self).ready(),
                    threads: final(threads)@,
                    graves: final(graves)@,
                }),
            ),
    {
        let ghost all = picked(
            Board { ready: self.ready(), threads: threads@, graves: graves@ },
        );
        loop
            invariant
                self.wf(threads@.len()),
                prioritized(threads@),
                self.same_but_ready(*old(self)),
                self.queue_length <= old(self).queue_length,
                threads@.len() == old(threads)@.len(),
                picked(Board { ready: self.ready(), threads: threads@, graves: graves@ }) == all,
                all == picked(
                    Board { ready: old(self).ready(), threads: old(threads)@, graves: old(graves)@ },
                ),
            decreases total(self.ready()),
        {
            let ghost before = self.ready();
            proof {
                lemma_first_ready(before, 0);
                if let Some(p) = first_ready(before, 0) {
                    lemma_total(before, p, before[p].skip(1));
                }
            }
            let item = match self.pop(threads) {
                Some(item) => item,
                None => {
                    return None;
                },
            };
            let mut thread = threads[item];
            if thread.cancel_requested || thread.process_terminating {
                if retire(&mut thread, 0) {
                    threads.set(item, thread);
                    graves.push(item);
                }
            } else if thread.transition(ThreadState::Ready, ThreadState::Running).is_ok() {
                threads.set(item, thread);
                return Some(item);
            }
        }
    }

    /// Chooses the thread that runs next. `requester` is a processor that has
    /// asked for work, `decayed` the priority that the running thread sinks to
    /// when its quantum is used up, and `quantum` the length of a quantum.
    pub fn schedule(
        &mut self,
        threads: &mut Vec<Thread>,
        reason: ScheduleReason,
        requester: Option<u64>,
        now: u64,
        decayed: u8,
        quantum: u64,
    ) -> (r: ScheduleOutcome)
        requires
            old(self).wf(old(threads)@.len()),
            old(self).idle_thread is Some,
            prioritized(old(threads)@),
            decayed < 32,
            now + quantum <= u64::MAX,
            old(self).queue_length + old(self).mailbox@.len() + 1 < usize::MAX,
        ensures
            final(self).wf(final(threads)@.len()),
            final(self).idle_thread == old(self).idle_thread,
            prioritized(final(threads)@),
            final(threads)@.len() == old(threads)@.len(),
            ({
                let (verdict, scene) = scheduled(
                    old(self).scene(old(threads)@),
                    reason,
                    requester,
                    now,
                    decayed,
                    quantum,
                );
                &&& final(self).scene(final(threads)@) == scene
                &&& r.next == verdict.next
                &&& r.prev == old(self).current_thread
                &&& r.donated == verdict.donated
                &&& r.graves@ == verdict.graves
                &&& r.wants_work == verdict.wants_work
                &&& r.switches == (old(self).current_thread != Some(verdict.next))
                &&& r.switches_space == space_changes(
                    final(threads)@,
                    old(self).current_thread,
                    verdict.next,
                    verdict.prev_retired,
                )
            }),
    {
        let donated = self.process_steal_request(threads, requester);
        let prev = self.current_thread;
        let mut graves: Vec<usize> = Vec::new();
        let prev_retired = Self::stop(threads, prev, reason, now, decayed);
        self.drain_mailbox(threads, now);
        let idle = self.idle_thread.unwrap();
        assert(graves@ =~= Seq::empty());
        let found = self.pick_next(threads, &mut graves);
        let (next, wants_work) = match found {
            Some(next) => (next, false),
            None => Self::fall_back(threads, prev, prev_retired, idle),
        };
        self.make_way(threads, prev, prev_retired, next, idle, now);
        Self::start(threads, next, prev, reason, now, quantum);
        self.current_thread = Some(next);
        if prev_retired {
            if let Some(c) = prev {
                graves.push(c);
            }
        }
        let switches_space = match prev {
            Some(c) => prev_retired || threads[c].process != threads[next].process,
            None => true,
        };
        let switches = match prev {
            Some(c) => c != next,
            None => true,
        };
        ScheduleOutcome { next, prev, donated, graves, wants_work, switches, switches_space }
    }

    /// Accounts for the running thread, and retires it if it is to exit.
    fn stop(threads: &mut Vec<Thread>, current: Option<usize>, reason: ScheduleReason, now: u64, decayed:
        u8) -> (r: bool)
        requires
            current matches Some(c) ==> c < old(threads)@.len(),
            prioritized(old(threads)@),
            decayed < 32,
        ensures
            prioritized(final(threads)@),
            final(threads)@.len() == old(threads)@.len(),
            stopped(old(threads)@, current, reason, now, decayed) == (r, final(threads)@),
            r ==> current is Some,
    {
        let mut prev_retired = false;
        if let Some(c) = current {
            let mut thread = threads[c];
            account_running_thread(&mut thread, reason, now, decayed);
            if thread.state == ThreadState::Running && (thread.cancel_requested
                || thread.process_terminating) {
                prev_retired = retire(&mut thread, 0);
            }
            threads.set(c, thread);
        }
        prev_retired
    }

    /// The thread that ran makes way for the next one.
    fn make_way(
        &mut self,
        threads: &mut Vec<Thread>,
        current: Option<usize>,
        prev_retired: bool,
        next: usize,
        idle: usize,
        now: u64,
    )
        requires
            old(self).wf(old(threads)@.len()),
            prioritized(old(threads)@),
            current matches Some(c) ==> c < old(threads)@.len(),
            old(self).queue_length < usize::MAX,
        ensures
            final(self).wf(final(threads)@.len()),
            prioritized(final(threads)@),
            final(self).same_but_ready(*old(self)),
            final(threads)@.len() == old(threads)@.len(),
            final(self).board(final(threads)@) == made_way(
                old(self).board(old(threads)@),
                current,
                prev_retired,
                next,
                idle,
                now,
            ),
    {
        if let Some(c) = current {
            if !prev_retired && c != next {
                let mut thread = threads[c];
                if thread.transition(ThreadState::Running, ThreadState::Ready).is_ok() {
                    threads.set(c, thread);
                    if c != idle {
                        self.push(threads, c, now);
                    }
                }
            }
        }
    }

    /// Starts the next thread.
    fn start(
        threads: &mut Vec<Thread>,
        next: usize,
        prev: Option<usize>,
        reason: ScheduleReason,
        now: u64,
        quantum: u64,
    )
        requires
            next < old(threads)@.len(),
            prioritized(old(threads)@),
            now + quantum <= u64::MAX,
        ensures
            prioritized(final(threads)@),
            final(threads)@ == old(threads)@.update(
                next as int,
                started(old(threads)@[next as int], next, prev, reason, now, quantum),
            ),
    {
        let mut thread = threads[next];
        thread.last_started = now;
        if thread.effective_priority == IDLE_PRIORITY {
            thread.quantum_expiry = u64::MAX;
        } else if should_refresh_quantum(next, prev, reason, thread.quantum_expiry, now) {
            thread.quantum_expiry = now + quantum;
        }
        threads.set(next, thread);
    }

    /// The thread that runs when none is ready.
    fn fall_back(threads: &mut Vec<Thread>, current: Option<usize>, prev_retired: bool, idle: usize) -> (r: (
        usize,
        bool,
    ))
        requires
            idle < old(threads)@.len(),
            current matches Some(c) ==> c < old(threads)@.len(),
            prioritized(old(threads)@),
        ensures
            prioritized(final(threads)@),
            final(threads)@.len() == old(threads)@.len(),
            r.0 < final(threads)@.len(),
            fallback(old(threads)@, current, prev_retired, idle) == (r.0, r.1, final(threads)@),
    {
        if let Some(c) = current {
            if !prev_retired && threads[c].state == ThreadState::Running {
                return (c, c == idle);
            }
        }
        let mut thread = threads[idle];
        if thread.transition(ThreadState::Ready, ThreadState::Running).is_ok() {
            threads.set(idle, thread);
        }
        (idle, true)
    }
}

pub proof fn lemma_last_migratable(threads: Seq<Thread>, ready: Ready, n: int)
    requires
        n <= ready.len(),
    ensures
        last_migratable(threads, ready, n) matches Some((p, i)) ==> 0 <= p < n && 0 <= i
            < ready[p].len() && threads[ready[p][i] as int].migratable,
    decreases n,
{
    if n > 0 {
        lemma_migratable_in(threads, ready[n - 1], 0);
        lemma_last_migratable(threads, ready, n - 1);
    }
}

proof fn lemma_migratable_in(threads: Seq<Thread>, queue: Seq<usize>, from: int)
    requires
        0 <= from,
    ensures
        migratable_in(threads, queue, from) matches Some(i) ==> from <= i < queue.len()
            && threads[queue[i] as int].migratable,
    decreases queue.len() - from,
{
    if from < queue.len() {
        lemma_migratable_in(threads, queue, from + 1);
    }
}

pub proof fn lemma_known_less(ready: Ready, p: int, i: int, count: nat)
    requires
        known(ready, count),
        0 <= p < ready.len(),
        0 <= i < ready[p].len(),
    ensures
        known(ready.update(p, ready[p].remove(i)), count),
{
    let after = ready.update(p, ready[p].remove(i));
    assert forall|q: int, j: int|
        0 <= q < after.len() && 0 <= j < after[q].len() implies #[trigger] after[q][j] < count by {
        if q == p {
            let k = if j < i {
                j
            } else {
                j + 1
            };
            assert(after[q][j] == ready[p][k]);
        } else {
            assert(after[q][j] == ready[q][j]);
        }
    }
}

/// Hands out thread numbers.
pub struct TidCounter {
    next: u64,
}

impl TidCounter {
    pub closed spec fn view(&self) -> u64 {
        self.next
    }

    pub fn new() -> (r: Self)
        ensures
            r@ == 0,
    {
        TidCounter { next: 0 }
    }

    /// A number that has not been handed out before, as long as there is one.
    pub fn get_new_tid(&mut self) -> (r: u64)
        ensures
            r == old(self)@,
            final(self)@ == if old(self)@ < u64::MAX {
                (old(self)@ + 1) as u64
            } else {
                0
            },
    {
        let r = self.next;
        self.next = if r < u64::MAX {
            r + 1
        } else {
            0
        };
        r
    }
}

/// The processor among the first `n` with the most ready threads, the first of
/// them if there are several. One that has no more than one is left alone.
pub open spec fn busiest(loads: Seq<usize>, this_core: u64, n: int) -> Option<int>
    decreases n,
{
    if n <= 0 {
        None
    } else {
        let before = busiest(loads, this_core, n - 1);
        let bar = match before {
            Some(core) => loads[core],
            None => 1,
        };
        if n - 1 != this_core && loads[n - 1] > bar {
            Some(n - 1)
        } else {
            before
        }
    }
}

/// The processor that is asked for work.
pub fn request_stolen_work(loads: &Vec<usize>, this_core: u64) -> (r: Option<usize>)
    ensures
        busiest(loads@, this_core, loads@.len() as int) == (match r {
            Some(core) => Some(core as int),
            None => None,
        }),
{
    let mut victim: Option<usize> = None;
    let mut victim_load: usize = 1;
    let mut core: usize = 0;
    while core < loads.len()
        invariant
            core <= loads@.len(),
            victim matches Some(v) ==> v < core,
            busiest(loads@, this_core, core as int) == (match victim {
                Some(core) => Some(core as int),
                None => None,
            }),
            victim_load == (match victim {
                Some(core) => loads@[core as int],
                None => 1,
            }),
        decreases loads@.len() - core,
    {
        if core as u64 != this_core && loads[core] > victim_load {
            victim = Some(core);
            victim_load = loads[core];
        }
        core += 1;
    }
    victim
}

/// No processor has more ready threads than the one that is asked, and that
/// one has at least two.
pub proof fn law_busiest_is_asked(loads: Seq<usize>, this_core: u64, n: int, other: int)
    requires
        0 <= other < n <= loads.len(),
        other != this_core,
    ensures
        match busiest(loads, this_core, n) {
            Some(core) => 0 <= core < n && core != this_core && loads[core] >= 2 && loads[other]
                <= loads[core],
            None => loads[other] <= 1,
        },
    decreases n,
{
    lemma_busiest(loads, this_core, n - 1);
    if other < n - 1 {
        law_busiest_is_asked(loads, this_core, n - 1, other);
    }
}

proof fn lemma_busiest(loads: Seq<usize>, this_core: u64, n: int)
    requires
        n <= loads.len(),
    ensures
        busiest(loads, this_core, n) matches Some(core) ==> 0 <= core < n && core != this_core
            && loads[core] >= 2,
    decreases n,
{
    if n > 0 {
        lemma_busiest(loads, this_core, n - 1);
    }
}

impl SchedulerState {
    /// The running thread exits, and the next one is chosen.
    pub fn terminate_current_thread(
        &mut self,
        threads: &mut Vec<Thread>,
        exit_code: u32,
        requester: Option<u64>,
        now: u64,
        decayed: u8,
        quantum: u64,
    ) -> (r: ScheduleOutcome)
        requires
            old(self).wf(old(threads)@.len()),
            old(self).idle_thread is Some,
            prioritized(old(threads)@),
            decayed < 32,
            now + quantum <= u64::MAX,
            old(self).queue_length + old(self).mailbox@.len() + 1 < usize::MAX,
        ensures
            final(self).wf(final(threads)@.len()),
            final(self).idle_thread == old(self).idle_thread,
            prioritized(final(threads)@),
            final(threads)@.len() == old(threads)@.len(),
            ({
                let (verdict, scene) = scheduled(
                    old(self).scene(exited(old(threads)@, old(self).current_thread, exit_code)),
                    ScheduleReason::Terminated,
                    requester,
                    now,
                    decayed,
                    quantum,
                );
                &&& final(self).scene(final(threads)@) == scene
                &&& r.next == verdict.next
                &&& r.prev == old(self).current_thread
                &&& r.donated == verdict.donated
                &&& r.graves@ == verdict.graves
                &&& r.wants_work == verdict.wants_work
                &&& r.switches == (old(self).current_thread != Some(verdict.next))
                &&& r.switches_space == space_changes(
                    final(threads)@,
                    old(self).current_thread,
                    verdict.next,
                    verdict.prev_retired,
                )
            }),
    {
        if let Some(c) = self.current_thread {
            let mut thread = threads[c];
            let _ = retire(&mut thread, exit_code);
            threads.set(c, thread);
        }
        proof {
            assert(threads@ =~= exited(old(threads)@, old(self).current_thread, exit_code));
        }
        self.schedule(threads, ScheduleReason::Terminated, requester, now, decayed, quantum)
    }

    pub fn terminate(
        &mut self,
        threads: &mut Vec<Thread>,
        exit_code: u32,
        requester: Option<u64>,
        now: u64,
        decayed: u8,
        quantum: u64,
    ) -> (r: ScheduleOutcome)
        requires
            old(self).wf(old(threads)@.len()),
            old(self).idle_thread is Some,
            prioritized(old(threads)@),
            decayed < 32,
            now + quantum <= u64::MAX,
            old(self).queue_length + old(self).mailbox@.len() + 1 < usize::MAX,
        ensures
            final(self).wf(final(threads)@.len()),
            final(self).idle_thread == old(self).idle_thread,
            prioritized(final(threads)@),
            final(threads)@.len() == old(threads)@.len(),
            ({
                let (verdict, scene) = scheduled(
                    old(self).scene(exited(old(threads)@, old(self).current_thread, exit_code)),
                    ScheduleReason::Terminated,
                    requester,
                    now,
                    decayed,
                    quantum,
                );
                &&& final(self).scene(final(threads)@) == scene
                &&& r.next == verdict.next
                &&& r.prev == old(self).current_thread
                &&& r.donated == verdict.donated
                &&& r.graves@ == verdict.graves
                &&& r.wants_work == verdict.wants_work
                &&& r.switches == (old(self).current_thread != Some(verdict.next))
                &&& r.switches_space == space_changes(
                    final(threads)@,
                    old(self).current_thread,
                    verdict.next,
                    verdict.prev_retired,
                )
            }),
    {
        self.terminate_current_thread(threads, exit_code, requester, now, decayed, quantum)
    }

    /// Takes the threads that the processor starts with: its idle thread, and
    /// the one that already runs.
    pub fn init_threads(&mut self, threads: &Vec<Thread>, idle: usize, current: usize)
        requires
            old(self).wf(threads@.len()),
            idle < threads@.len(),
            current < threads@.len(),
        ensures
            final(self).wf(threads@.len()),
            *final(self) == (SchedulerState {
                idle_thread: Some(idle),
                current_thread: Some(current),
                ..*old(self)
            }),
    {
        let ghost before = *self;
        self.idle_thread = Some(idle);
        self.current_thread = Some(current);
        assert(self.ready() =~= before.ready());
    }
}

/// The threads after the running one has exited.
pub open spec fn exited(threads: Seq<Thread>, current: Option<usize>, exit_code: u32) -> Seq<Thread> {
    match current {
        None => threads,
        Some(c) => match retired(threads[c as int], exit_code) {
            Some(gone) => threads.update(c as int, gone),
            None => threads,
        },
    }
}

/// A thread that a scheduler can choose.
pub open spec fn runnable(thread: Thread) -> bool {
    !should_exit(thread) && thread.state == ThreadState::Ready
}

/// Entry `i` of queue `p` is the first that can be chosen.
pub open spec fn is_first_runnable(b: Board, p: int, i: int) -> bool {
    &&& 0 <= p < b.ready.len()
    &&& 0 <= i < b.ready[p].len()
    &&& runnable(b.threads[b.ready[p][i] as int])
    &&& forall|q: int, j: int|
        0 <= q < b.ready.len() && 0 <= j < b.ready[q].len() && (q < p || q == p && j < i)
            ==> !runnable(b.threads[#[trigger] b.ready[q][j] as int])
}

/// The queues behind entry `i` of queue `p`.
pub open spec fn behind(ready: Ready, p: int, i: int) -> Ready {
    Seq::new(
        ready.len(),
        |q: int|
            if q < p {
                Seq::empty()
            } else if q == p {
                ready[p].skip(i + 1)
            } else {
                ready[q]
            },
    )
}

/// The thread that is chosen is the first that can run, by priority and within
/// a priority by turn, and the threads behind it stay where they are. When
/// none is chosen, none can run.
pub proof fn law_first_runnable_is_chosen(b: Board)
    requires
        known(b.ready, b.threads.len()),
    ensures
        match picked(b) {
            (Some(next), after) => exists|p: int, i: int| #[trigger]
                is_first_runnable(b, p, i) && b.ready[p][i] == next && after.ready == behind(
                    b.ready,
                    p,
                    i,
                ) && after.threads[next as int].state == ThreadState::Running,
            (None, after) => total(after.ready) == 0 && forall|q: int, j: int|
                0 <= q < b.ready.len() && 0 <= j < b.ready[q].len() ==> !runnable(
                    b.threads[#[trigger] b.ready[q][j] as int],
                ),
        },
    decreases total(b.ready),
{
    lemma_first_ready(b.ready, 0);
    match first_ready(b.ready, 0) {
        None => {
            lemma_nothing_ready(b.ready, 0);
            lemma_total_empty(b.ready);
        },
        Some(p) => {
            let item = b.ready[p][0];
            let thread = b.threads[item as int];
            let queue = b.ready[p].skip(1);
            let ready = b.ready.update(p, queue);
            lemma_total(b.ready, p, queue);
            if runnable(thread) {
                assert(is_first_runnable(b, p, 0)) by {
                    assert forall|q: int, j: int|
                        0 <= q < b.ready.len() && 0 <= j < b.ready[q].len() && (q < p || q == p
                            && j < 0) implies !runnable(
                        b.threads[#[trigger] b.ready[q][j] as int],
                    ) by {
                        assert(b.ready[q].len() == 0);
                    }
                }
                let after = picked(b).1;
                assert(after.ready =~= behind(b.ready, p, 0)) by {
                    assert forall|q: int| 0 <= q < b.ready.len() implies #[trigger] after.ready[q]
                        == behind(b.ready, p, 0)[q] by {
                        if q < p {
                            assert(b.ready[q].len() == 0);
                            assert(b.ready[q] =~= Seq::empty());
                        }
                    }
                }
            } else {
                let rest = if should_exit(thread) && retired(thread, 0) is Some {
                    Board {
                        ready,
                        threads: b.threads.update(item as int, retired(thread, 0)->0),
                        graves: b.graves.push(item),
                    }
                } else {
                    Board { ready, ..b }
                };
                lemma_known_rest(b.ready, p, b.threads.len());
                assert(picked(b) == picked(rest));
                law_first_runnable_is_chosen(rest);
                assert forall|t: int| 0 <= t < b.threads.len() implies runnable(
                    #[trigger] rest.threads[t],
                ) == runnable(b.threads[t]) by {}
                lemma_entries_shift(b, rest, p);
                match picked(rest) {
                    (Some(next), after) => {
                        let (rp, ri) = choose|rp: int, ri: int| #[trigger]
                            is_first_runnable(rest, rp, ri) && rest.ready[rp][ri] == next
                                && after.ready == behind(rest.ready, rp, ri)
                                && after.threads[next as int].state == ThreadState::Running;
                        let i = if rp == p {
                            ri + 1
                        } else {
                            ri
                        };
                        lemma_first_shift(b, rest, p, rp, ri);
                        assert(is_first_runnable(b, rp, i));
                        assert(b.ready[rp][i] == next);
                        assert(rp >= p) by {
                            if rp < p {
                                assert(b.ready[rp].len() == 0);
                            }
                        }
                        assert forall|q: int| 0 <= q < b.ready.len() implies
                            #[trigger] after.ready[q] == behind(b.ready, rp, i)[q] by {
                            if q == rp && rp == p {
                                assert(b.ready[p].skip(1).skip(ri + 1) =~= b.ready[p].skip(
                                    ri + 2,
                                ));
                            }
                        }
                        assert(after.ready =~= behind(b.ready, rp, i));
                    },
                    (None, _) => {
                        assert forall|q: int, j: int|
                            0 <= q < b.ready.len() && 0 <= j < b.ready[q].len() implies !runnable(
                            b.threads[#[trigger] b.ready[q][j] as int],
                        ) by {
                            if q == p && j > 0 {
                                assert(rest.ready[p][j - 1] == b.ready[p][j]);
                            } else if q != p {
                                assert(rest.ready[q][j] == b.ready[q][j]);
                            }
                        }
                    },
                }
            }
        },
    }
}

proof fn lemma_nothing_ready(ready: Ready, from: int)
    requires
        0 <= from,
        first_ready(ready, from) is None,
    ensures
        forall|q: int| from <= q < ready.len() ==> (#[trigger] ready[q]).len() == 0,
    decreases ready.len() - from,
{
    if from < ready.len() {
        lemma_nothing_ready(ready, from + 1);
    }
}

pub proof fn lemma_known_rest(ready: Ready, p: int, count: nat)
    requires
        known(ready, count),
        0 <= p < ready.len(),
        ready[p].len() > 0,
    ensures
        known(ready.update(p, ready[p].skip(1)), count),
{
    let after = ready.update(p, ready[p].skip(1));
    assert forall|q: int, j: int|
        0 <= q < after.len() && 0 <= j < after[q].len() implies #[trigger] after[q][j] < count by {
        if q == p {
            assert(after[q][j] == ready[p][j + 1]);
        } else {
            assert(after[q][j] == ready[q][j]);
        }
    }
}

/// With the first entry of queue `p` gone, the others have moved up.
proof fn lemma_entries_shift(b: Board, rest: Board, p: int)
    requires
        0 <= p < b.ready.len(),
        b.ready[p].len() > 0,
        rest.ready == b.ready.update(p, b.ready[p].skip(1)),
    ensures
        forall|q: int, j: int|
            0 <= q < rest.ready.len() && 0 <= j < rest.ready[q].len() ==> #[trigger] rest.ready[q][j]
                == if q == p {
                b.ready[q][j + 1]
            } else {
                b.ready[q][j]
            },
{
}

proof fn lemma_first_shift(b: Board, rest: Board, p: int, rp: int, ri: int)
    requires
        known(b.ready, b.threads.len()),
        0 <= p < b.ready.len(),
        b.ready[p].len() > 0,
        forall|q: int| 0 <= q < p ==> (#[trigger] b.ready[q]).len() == 0,
        !runnable(b.threads[b.ready[p][0] as int]),
        rest.ready == b.ready.update(p, b.ready[p].skip(1)),
        rest.threads.len() == b.threads.len(),
        forall|t: int|
            0 <= t < b.threads.len() ==> runnable(#[trigger] rest.threads[t]) == runnable(
                b.threads[t],
            ),
        is_first_runnable(rest, rp, ri),
    ensures
        is_first_runnable(
            b,
            rp,
            if rp == p {
                ri + 1
            } else {
                ri
            },
        ),
{
    let i = if rp == p {
        ri + 1
    } else {
        ri
    };
    assert(rest.ready[rp][ri] == b.ready[rp][i]);
    assert(runnable(rest.threads[rest.ready[rp][ri] as int]));
    assert forall|q: int, j: int|
        0 <= q < b.ready.len() && 0 <= j < b.ready[q].len() && (q < rp || q == rp && j
            < i) implies !runnable(b.threads[#[trigger] b.ready[q][j] as int]) by {
        let t = b.ready[q][j] as int;
        if q == p {
            if j > 0 {
                assert(rest.ready[p][j - 1] == b.ready[p][j]);
                assert(!runnable(rest.threads[rest.ready[p][j - 1] as int]));
                assert(runnable(rest.threads[t]) == runnable(b.threads[t]));
            }
        } else {
            assert(rest.ready[q][j] == b.ready[q][j]);
            assert(!runnable(rest.threads[rest.ready[q][j] as int]));
            assert(runnable(rest.threads[t]) == runnable(b.threads[t]));
        }
    }
}

/// The threads of a scene are all known, and have priorities.
pub open spec fn scene_wf(s: Scene) -> bool {
    let count = s.board.threads.len();
    &&& s.board.ready.len() == 32
    &&& known(s.board.ready, count)
    &&& prioritized(s.board.threads)
    &&& forall|i: int| 0 <= i < s.mailbox.len() ==> #[trigger] s.mailbox[i] < count
    &&& s.idle < count
    &&& s.current matches Some(c) ==> c < count
}

pub proof fn lemma_drained(b: Board, mailbox: Seq<usize>, now: u64)
    requires
        b.ready.len() == 32,
        known(b.ready, b.threads.len()),
        prioritized(b.threads),
        forall|i: int| 0 <= i < mailbox.len() ==> #[trigger] mailbox[i] < b.threads.len(),
    ensures
        ({
            let after = drained(b, mailbox, now);
            &&& after.ready.len() == 32
            &&& after.threads.len() == b.threads.len()
            &&& known(after.ready, after.threads.len())
            &&& prioritized(after.threads)
            &&& forall|t: int|
                0 <= t < b.threads.len() ==> (#[trigger] after.threads[t]).state
                    == b.threads[t].state && should_exit(after.threads[t]) == should_exit(
                    b.threads[t],
                )
        }),
    decreases mailbox.len(),
{
    if mailbox.len() > 0 {
        let item = mailbox[0];
        let next = pushed(b, item, now);
        let rest = mailbox.skip(1);
        assert forall|i: int| 0 <= i < rest.len() implies #[trigger] rest[i] < b.threads.len() by {
            assert(rest[i] == mailbox[i + 1]);
        }
        lemma_drained(next, rest, now);
        let after = drained(b, mailbox, now);
        assert forall|t: int| 0 <= t < b.threads.len() implies (#[trigger] after.threads[t]).state
            == b.threads[t].state && should_exit(after.threads[t]) == should_exit(b.threads[t]) by {
            assert(next.threads[t].state == b.threads[t].state);
        }
    }
}

pub proof fn lemma_picked(b: Board)
    requires
        known(b.ready, b.threads.len()),
    ensures
        picked(b).1.threads.len() == b.threads.len(),
        forall|t: int|
            0 <= t < b.threads.len() && !should_exit(b.threads[t]) && picked(b).0 != Some(
                t as usize,
            ) ==> (#[trigger] picked(b).1.threads[t]) == b.threads[t],
    decreases total(b.ready),
{
    lemma_first_ready(b.ready, 0);
    if let Some(p) = first_ready(b.ready, 0) {
        let item = b.ready[p][0];
        let thread = b.threads[item as int];
        let queue = b.ready[p].skip(1);
        let ready = b.ready.update(p, queue);
        lemma_total(b.ready, p, queue);
        lemma_known_rest(b.ready, p, b.threads.len());
        if !runnable(thread) {
            let rest = if should_exit(thread) && retired(thread, 0) is Some {
                Board {
                    ready,
                    threads: b.threads.update(item as int, retired(thread, 0)->0),
                    graves: b.graves.push(item),
                }
            } else {
                Board { ready, ..b }
            };
            assert(picked(b) == picked(rest));
            lemma_picked(rest);
            assert forall|t: int|
                0 <= t < b.threads.len() && !should_exit(b.threads[t]) && picked(b).0 != Some(
                    t as usize,
                ) implies (#[trigger] picked(b).1.threads[t]) == b.threads[t] by {
                assert(rest.threads[t] == b.threads[t]);
                assert(picked(rest).1.threads[t] == rest.threads[t]);
            }
        }
    }
}

/// The thread that is chosen to run next is in the running state from then on,
/// as long as the idle thread can run.
pub proof fn law_chosen_thread_runs(
    s: Scene,
    reason: ScheduleReason,
    requester: Option<u64>,
    now: u64,
    decayed: u8,
    quantum: u64,
)
    requires
        scene_wf(s),
        decayed < 32,
        s.board.threads[s.idle as int].state == ThreadState::Ready
            || s.board.threads[s.idle as int].state == ThreadState::Running,
        !should_exit(s.board.threads[s.idle as int]),
    ensures
        ({
            let (verdict, after) = scheduled(s, reason, requester, now, decayed, quantum);
            &&& verdict.next < s.board.threads.len()
            &&& after.current == Some(verdict.next)
            &&& after.board.threads[verdict.next as int].state == ThreadState::Running
        }),
{
    let (donated, ready, threads) = donation(s.board.ready, s.board.threads, s.core, requester);
    lemma_last_migratable(s.board.threads, s.board.ready, 32);
    if let Some((p, i)) = last_migratable(s.board.threads, s.board.ready, 32) {
        lemma_known_less(s.board.ready, p, i, s.board.threads.len());
        assert(s.board.ready[p][i] < s.board.threads.len());
    }
    let (prev_retired, stopped_threads) = stopped(threads, s.current, reason, now, decayed);
    let b = Board { ready, threads: stopped_threads, graves: Seq::empty() };
    lemma_drained(b, s.mailbox, now);
    let queued = drained(b, s.mailbox, now);
    law_first_runnable_is_chosen(queued);
    lemma_picked(queued);
    let (found, chosen) = picked(queued);
    match found {
        Some(next) => {
            let (p, i) = choose|p: int, i: int| #[trigger]
                is_first_runnable(queued, p, i) && queued.ready[p][i] == next && chosen.ready
                    == behind(queued.ready, p, i) && chosen.threads[next as int].state
                    == ThreadState::Running;
            assert(queued.ready[p][i] < queued.threads.len());
        },
        None => {
            assert(should_exit(queued.threads[s.idle as int]) == should_exit(
                s.board.threads[s.idle as int],
            ));
            assert(chosen.threads[s.idle as int] == queued.threads[s.idle as int]);
        },
    }
}

} // verus!
