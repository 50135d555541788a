//! A queue that hands out a permit to one task at a time, in the order in
//! which the tasks asked for it.
//!
//! Every call to [`TaskQueue::acquire`] takes a ticket: tickets are numbered
//! from 0 in the order of the calls. The queue keeps, per ticket, whether
//! it has been granted the queue (`ready`) and whether its acquisition
//! future was dropped, and it keeps the ticket that holds the queue now and
//! the tickets that wait, in order. The entries of tickets that are done
//! are let go as the queue moves on.
use crate::flag::Flag;
use crate::waker::waker_will_wake;
use std::collections::VecDeque;
use std::task::Waker;
use vstd::prelude::*;

verus! {

/// A cell that holds a value or nothing.
pub struct FastOptionCell<T>(Option<T>);

impl<T> View for FastOptionCell<T> {
    type V = Option<T>;

    /// The held value, if any.
    closed spec fn view(&self) -> Option<T> {
        self.0
    }
}

impl<T> Default for FastOptionCell<T> {
    /// An empty cell.
    fn default() -> (cell: Self)
        ensures
            cell@ is None,
    {
        FastOptionCell(None)
    }
}

impl<T> FastOptionCell<T> {
    /// A cell that holds `value`.
    pub fn new(value: T) -> (cell: Self)
        ensures
            cell@ == Some(value),
    {
        FastOptionCell(Some(value))
    }

    /// Puts `value` in, in place of what the cell held.
    pub fn put(&mut self, value: T)
        ensures
            final(self)@ == Some(value),
    {
        self.0 = Some(value);
    }

    /// Takes the value out, leaving the cell empty.
    pub fn take(&mut self) -> (value: Option<T>)
        ensures
            value == old(self)@,
            final(self)@ is None,
    {
        self.0.take()
    }

    /// Asks `if_condition` about the current content; when it answers
    /// `true`, the cell is set to the value that `replace_with` makes.
    pub fn replace_if_with<C, R>(&mut self, if_condition: C, replace_with: R)
        where
            C: FnOnce(&Option<T>) -> bool,
            R: FnOnce() -> T,
        requires
            call_requires(if_condition, (&old(self)@,)),
            call_requires(replace_with, ()),
        ensures
            ({
                ||| call_ensures(if_condition, (&old(self)@,), false) && final(self)@ == old(self)@
                ||| call_ensures(if_condition, (&old(self)@,), true) && (exists|v: T|
                    call_ensures(replace_with, (), v) && final(self)@ == Some(v))
            }),
    {
        if if_condition(&self.0) {
            self.0 = Some(replace_with());
        }
    }
}

/// What the queue knows of one ticket.
pub struct TaskQueueTaskWaker {
    is_ready: Flag,
    is_future_dropped: Flag,
    waker: FastOptionCell<Waker>,
}

impl TaskQueueTaskWaker {
    fn new() -> (entry: Self)
        ensures
            !entry.is_ready@,
            !entry.is_future_dropped@,
            entry.waker@ is None,
    {
        TaskQueueTaskWaker {
            is_ready: Flag::default(),
            is_future_dropped: Flag::default(),
            waker: FastOptionCell::default(),
        }
    }
}

struct TaskQueueTasks {
    running: Option<usize>,
    wakers: VecDeque<usize>,
}

/// A queue that executes tasks sequentially one after the other,
/// ensuring order and that no task runs at the same time as another.
///
/// The entries of the tickets from `first_ticket` on are stored; the
/// tickets before it are done, and their entries have been let go.
pub struct TaskQueue {
    tasks: TaskQueueTasks,
    entries: Vec<TaskQueueTaskWaker>,
    first_ticket: usize,
    ready: Ghost<Seq<bool>>,
    dropped: Ghost<Seq<bool>>,
}

/// A permit that, when released, lets the next task proceed.
pub struct TaskQueuePermit(usize);

/// The future that resolves to a [`TaskQueuePermit`] once the ticket it
/// took is at the head of the queue.
pub struct TaskQueuePermitAcquireFuture {
    ticket: usize,
    pending: bool,
}

impl TaskQueuePermit {
    /// The ticket that this permit was granted to.
    pub closed spec fn ticket(&self) -> usize {
        self.0
    }
}

impl TaskQueuePermitAcquireFuture {
    /// The ticket that this future took.
    pub closed spec fn ticket(&self) -> usize {
        self.ticket
    }

    /// Whether the future has not resolved to a permit yet.
    pub closed spec fn is_pending(&self) -> bool {
        self.pending
    }
}

/// `s` without the run of tickets at its front that `dropped` marks.
pub open spec fn skip_dropped(dropped: Seq<bool>, s: Seq<usize>) -> Seq<usize>
    decreases s.len(),
{
    if s.len() > 0 && 0 <= s[0] < dropped.len() && dropped[s[0] as int] {
        skip_dropped(dropped, s.drop_first())
    } else {
        s
    }
}

impl TaskQueue {
    /// The ticket that holds the queue, if any.
    pub closed spec fn running(&self) -> Option<usize> {
        self.tasks.running
    }

    /// The tickets that wait for the queue, first to be served first.
    pub closed spec fn waiting(&self) -> Seq<usize> {
        self.tasks.wakers@
    }

    /// How many tickets were taken: one flag of each kind per ticket.
    pub open spec fn tickets(&self) -> nat {
        self.readiness().len()
    }

    /// Per ticket, whether it has been granted the queue.
    pub closed spec fn readiness(&self) -> Seq<bool> {
        self.ready@
    }

    /// Per ticket, whether its acquisition future was dropped.
    pub closed spec fn dropped(&self) -> Seq<bool> {
        self.dropped@
    }

    /// The waker stored for `ticket`: that of the task that last polled it
    /// while it waited, to be woken when the ticket is granted the queue.
    pub closed spec fn stored_waker(&self, ticket: usize) -> Option<Waker> {
        if self.first_ticket <= ticket < self.first_ticket + self.entries@.len() {
            self.entries@[ticket - self.first_ticket].waker@
        } else {
            None
        }
    }

    /// Whether a waker is stored for `ticket`.
    pub open spec fn has_waker(&self, ticket: usize) -> bool {
        self.stored_waker(ticket) is Some
    }

    /// The stored entries are those of the tickets from `first_ticket` on,
    /// and agree with the flags of those tickets.
    closed spec fn entries_wf(&self) -> bool {
        &&& self.dropped@.len() == self.ready@.len()
        &&& self.ready@.len() <= usize::MAX
        &&& self.first_ticket + self.entries@.len() == self.ready@.len()
        &&& forall|i: int| #![trigger self.entries@[i]]
            0 <= i < self.entries@.len() ==> self.entries@[i].is_ready@
                == self.ready@[self.first_ticket + i] && self.entries@[i].is_future_dropped@
                == self.dropped@[self.first_ticket + i]
    }

    /// Every ticket that holds or waits for the queue is stored.
    pub closed spec fn storage_wf(&self) -> bool {
        &&& self.entries_wf()
        &&& (self.tasks.running matches Some(h) ==> self.first_ticket <= h)
        &&& forall|k: int|
            0 <= k < self.tasks.wakers@.len() ==> self.first_ticket <= #[trigger] self.tasks.wakers@[k]
    }

    /// A ticket is live while it holds the queue or waits for it.
    pub open spec fn is_live(&self, ticket: usize) -> bool {
        self.running() == Some(ticket) || self.waiting().contains(ticket)
    }

    /// The waiting tickets are taken tickets that are not ready, in
    /// increasing order.
    pub open spec fn waiting_wf(&self) -> bool {
        let ready = self.readiness();
        let waiting = self.waiting();
        &&& self.storage_wf()
        &&& self.dropped().len() == ready.len()
        &&& forall|k: int|
            0 <= k < waiting.len() ==> #[trigger] waiting[k] < ready.len() && !ready[waiting[k] as int]
        &&& forall|a: int, b: int| 0 <= a < b < waiting.len() ==> waiting[a] < waiting[b]
    }

    /// Every ticket that waits both before and after keeps its stored
    /// waker (or its lack of one).
    pub open spec fn wakers_kept(before: TaskQueue, after: TaskQueue) -> bool {
        forall|t: usize|
            #![trigger after.stored_waker(t)]
            before.waiting().contains(t) && after.waiting().contains(t) ==> after.stored_waker(t)
                == before.stored_waker(t)
    }

    /// What handing the queue on leaves in `after`: the waiting tickets at
    /// the front whose futures were dropped are discarded, and the first of
    /// the rest is granted the queue and its stored waker handed out to be
    /// woken (`woken`); when none is left, the queue is idle and no waker is
    /// handed out. Nothing else changes.
    pub open spec fn granted_next(before: TaskQueue, after: TaskQueue, woken: Option<Waker>) -> bool {
        let rest = skip_dropped(before.dropped(), before.waiting());
        &&& after.wf()
        &&& Self::wakers_kept(before, after)
        &&& after.tickets() == before.tickets()
        &&& after.dropped() == before.dropped()
        &&& (rest.len() == 0 ==> {
            &&& after.running() is None
            &&& after.waiting() == rest
            &&& after.readiness() == before.readiness()
            &&& woken is None
        })
        &&& (rest.len() > 0 ==> {
            &&& after.running() == Some(rest[0])
            &&& after.waiting() == rest.drop_first()
            &&& after.readiness() == before.readiness().update(rest[0] as int, true)
            &&& !after.has_waker(rest[0])
            &&& woken == before.stored_waker(rest[0])
        })
    }

    /// What dropping the unresolved future of the running ticket leaves:
    /// its ticket is marked dropped, and the queue is handed on as in
    /// [`Self::granted_next`].
    pub open spec fn passed_on(
        before: TaskQueue,
        after: TaskQueue,
        ticket: usize,
        woken: Option<Waker>,
    ) -> bool {
        let rest = skip_dropped(after.dropped(), before.waiting());
        &&& before.running() == Some(ticket)
        &&& after.dropped() == before.dropped().update(ticket as int, true)
        &&& (rest.len() == 0 ==> {
            &&& after.running() is None
            &&& after.waiting() == rest
            &&& after.readiness() == before.readiness()
            &&& woken is None
        })
        &&& (rest.len() > 0 ==> {
            &&& after.running() == Some(rest[0])
            &&& after.waiting() == rest.drop_first()
            &&& after.readiness() == before.readiness().update(rest[0] as int, true)
            &&& !after.has_waker(rest[0])
            &&& woken == before.stored_waker(rest[0])
        })
    }

    /// The queue's invariant: the running ticket is ready; the waiting
    /// tickets are not ready, are in increasing order, and come after the
    /// running one; and tickets wait only while one runs.
    pub open spec fn wf(&self) -> bool {
        let ready = self.readiness();
        let waiting = self.waiting();
        &&& self.waiting_wf()
        &&& (self.running() matches Some(h) ==> h < ready.len() && ready[h as int])
        &&& (self.running() matches Some(h) ==> forall|k: int|
            0 <= k < waiting.len() ==> h < #[trigger] waiting[k])
        &&& (self.running() is None ==> waiting.len() == 0)
    }
}

/// One operation on a queue, as a step of a run: what was called, on which
/// ticket, and what it answered.
pub enum QueueOp {
    /// `acquire`, which took `ticket`.
    Acquire { ticket: usize },
    /// A poll of the pending future of `ticket`; `granted` when it resolved
    /// to a permit.
    Poll { ticket: usize, granted: bool },
    /// The drop of the future of `ticket`, still `pending` or resolved.
    DropFuture { ticket: usize, pending: bool },
    /// The release of the permit of `ticket`.
    Release { ticket: usize },
}

impl TaskQueue {
    /// What the operation `op` leaves in `after`, from `before`, as far as
    /// who holds and who waits for the queue goes (each operation states
    /// this in its contract).
    pub open spec fn step(before: TaskQueue, after: TaskQueue, op: QueueOp) -> bool {
        &&& after.wf()
        &&& match op {
            QueueOp::Acquire { ticket } => {
                &&& ticket == before.tickets()
                &&& after.tickets() == before.tickets() + 1
                &&& after.dropped() == before.dropped().push(false)
                &&& before.running() is None ==> after.running() == Some(ticket)
                    && after.waiting() == before.waiting()
                &&& before.running() is Some ==> after.running() == before.running()
                    && after.waiting() == before.waiting().push(ticket)
            },
            QueueOp::Poll { ticket, granted } => {
                &&& before.is_live(ticket)
                &&& after.running() == before.running()
                &&& after.waiting() == before.waiting()
                &&& after.dropped() == before.dropped()
                &&& after.tickets() == before.tickets()
                &&& granted ==> before.running() == Some(ticket)
            },
            QueueOp::DropFuture { ticket, pending } => {
                &&& !pending ==> after == before
                &&& pending ==> before.is_live(ticket) && after.dropped()
                    == before.dropped().update(ticket as int, true)
                &&& pending && before.running() != Some(ticket) ==> after.running()
                    == before.running() && after.waiting() == before.waiting()
                &&& pending && before.running() == Some(ticket) ==> exists|woken: Option<Waker>|
                    TaskQueue::passed_on(before, after, ticket, woken)
            },
            QueueOp::Release { ticket } => {
                &&& before.running() == Some(ticket)
                &&& exists|woken: Option<Waker>| TaskQueue::granted_next(before, after, woken)
            },
        }
    }
}

/// The ticket whose poll `op` resolved to a permit, if it is such a poll.
pub open spec fn granted_ticket(op: QueueOp) -> Option<usize> {
    match op {
        QueueOp::Poll { ticket, granted } => if granted {
            Some(ticket)
        } else {
            None
        },
        _ => None,
    }
}

/// Whether `op` ends the turn of `ticket`: the release of its permit, or the
/// drop of its future while still pending.
pub open spec fn ends_turn_of(op: QueueOp, ticket: usize) -> bool {
    match op {
        QueueOp::Release { ticket: t } => t == ticket,
        QueueOp::DropFuture { ticket: t, pending } => pending && t == ticket,
        _ => false,
    }
}

impl Default for TaskQueue {
    /// An idle queue that has handed out no ticket.
    fn default() -> (queue: Self)
        ensures
            queue.wf(),
            queue.running() is None,
            queue.waiting() == Seq::<usize>::empty(),
            queue.readiness() == Seq::<bool>::empty(),
            queue.dropped() == Seq::<bool>::empty(),
            queue.tickets() == 0,
    {
        TaskQueue {
            tasks: TaskQueueTasks { running: None, wakers: VecDeque::new() },
            entries: Vec::new(),
            first_ticket: 0,
            ready: Ghost(Seq::empty()),
            dropped: Ghost(Seq::empty()),
        }
    }
}

impl TaskQueue {
    /// How many tickets were taken.
    pub fn ticket_count(&self) -> (count: usize)
        requires
            self.storage_wf(),
        ensures
            count == self.tickets(),
    {
        self.first_ticket + self.entries.len()
    }

    /// Whether a stored ticket has been granted the queue.
    fn is_ready_at(&self, ticket: usize) -> (ready: bool)
        requires
            self.entries_wf(),
            self.first_ticket <= ticket < self.tickets(),
        ensures
            ready == self.readiness()[ticket as int],
    {
        let index = ticket - self.first_ticket;
        proof {
            assert(self.entries@[index as int].is_ready@ == self.ready@[ticket as int]);
        }
        self.entries[index].is_ready.is_raised()
    }

    /// Whether the future of a stored ticket was dropped.
    fn is_dropped_at(&self, ticket: usize) -> (dropped: bool)
        requires
            self.entries_wf(),
            self.first_ticket <= ticket < self.tickets(),
        ensures
            dropped == self.dropped()[ticket as int],
    {
        let index = ticket - self.first_ticket;
        proof {
            assert(self.entries@[index as int].is_future_dropped@ == self.dropped@[ticket as int]);
        }
        self.entries[index].is_future_dropped.is_raised()
    }

    /// Marks a stored ticket as granted the queue, and takes out its stored
    /// waker, to be woken.
    fn make_ready(&mut self, ticket: usize) -> (woken: Option<Waker>)
        requires
            old(self).entries_wf(),
            old(self).first_ticket <= ticket < old(self).tickets(),
        ensures
            final(self).entries_wf(),
            final(self).readiness() == old(self).readiness().update(ticket as int, true),
            final(self).dropped() == old(self).dropped(),
            final(self).tasks == old(self).tasks,
            final(self).first_ticket == old(self).first_ticket,
            !final(self).has_waker(ticket),
            woken == old(self).stored_waker(ticket),
            forall|t: usize| t != ticket ==> #[trigger] final(self).stored_waker(t) == old(self).stored_waker(t),
    {
        let index = ticket - self.first_ticket;
        self.entries[index].is_ready.raise();
        let woken = self.entries[index].waker.take();
        proof {
            self.ready@ = self.ready@.update(ticket as int, true);
            assert forall|i: int| #![trigger self.entries@[i]] 0 <= i < self.entries@.len() implies self.entries@[i].is_ready@
                == self.ready@[self.first_ticket + i] && self.entries@[i].is_future_dropped@
                == self.dropped@[self.first_ticket + i] by {
                if i != index {
                    assert(self.entries@[i] == old(self).entries@[i]);
                }
            }
        }
        woken
    }

    /// Marks the future of a stored ticket as dropped.
    fn mark_dropped(&mut self, ticket: usize)
        requires
            old(self).entries_wf(),
            old(self).first_ticket <= ticket < old(self).tickets(),
        ensures
            final(self).entries_wf(),
            final(self).readiness() == old(self).readiness(),
            final(self).dropped() == old(self).dropped().update(ticket as int, true),
            final(self).tasks == old(self).tasks,
            final(self).first_ticket == old(self).first_ticket,
            forall|t: usize| #[trigger] final(self).stored_waker(t) == old(self).stored_waker(t),
    {
        let index = ticket - self.first_ticket;
        self.entries[index].is_future_dropped.raise();
        proof {
            self.dropped@ = self.dropped@.update(ticket as int, true);
            assert forall|i: int| #![trigger self.entries@[i]] 0 <= i < self.entries@.len() implies self.entries@[i].is_ready@
                == self.ready@[self.first_ticket + i] && self.entries@[i].is_future_dropped@
                == self.dropped@[self.first_ticket + i] by {
                if i != index {
                    assert(self.entries@[i] == old(self).entries@[i]);
                }
            }
        }
    }

    /// Stores the waker of the task that polls a stored ticket, unless the
    /// stored one already wakes that task: then the stored one is kept and
    /// `waker` is dropped.
    fn store_waker(&mut self, ticket: usize, waker: Waker)
        requires
            old(self).entries_wf(),
            old(self).first_ticket <= ticket < old(self).tickets(),
        ensures
            final(self).entries_wf(),
            final(self).readiness() == old(self).readiness(),
            final(self).dropped() == old(self).dropped(),
            final(self).tasks == old(self).tasks,
            final(self).first_ticket == old(self).first_ticket,
            final(self).stored_waker(ticket) == old(self).stored_waker(ticket)
                || final(self).stored_waker(ticket) == Some(waker),
            old(self).stored_waker(ticket) is None ==> final(self).stored_waker(ticket) == Some(
                waker,
            ),
            forall|t: usize| t != ticket ==> #[trigger] final(self).stored_waker(t) == old(self).stored_waker(t),
    {
        let index = ticket - self.first_ticket;
        let stored = self.entries[index].waker.take();
        match stored {
            Some(current) if waker_will_wake(&current, &waker) => {
                self.entries[index].waker.put(current);
            },
            _ => {
                self.entries[index].waker.put(waker);
            },
        }
        proof {
            assert forall|i: int| #![trigger self.entries@[i]] 0 <= i < self.entries@.len() implies self.entries@[i].is_ready@
                == self.ready@[self.first_ticket + i] && self.entries@[i].is_future_dropped@
                == self.dropped@[self.first_ticket + i] by {
                if i != index {
                    assert(self.entries@[i] == old(self).entries@[i]);
                }
            }
        }
    }

    /// The first ticket that is not done: the running one, or, when the
    /// queue is idle, the next ticket to be taken.
    spec fn first_live(&self) -> int {
        match self.tasks.running {
            Some(ticket) => ticket as int,
            None => self.tickets() as int,
        }
    }

    /// Lets go of the entries of done tickets, those before the one that
    /// runs (all of them when the queue is idle), once they are at least
    /// half of the stored entries.
    fn let_go_of_done(&mut self)
        requires
            old(self).wf(),
        ensures
            final(self).wf(),
            final(self).running() == old(self).running(),
            final(self).waiting() == old(self).waiting(),
            final(self).readiness() == old(self).readiness(),
            final(self).dropped() == old(self).dropped(),
            forall|t: usize|
                old(self).is_live(t) ==> (#[trigger] final(self).stored_waker(t) == old(self).stored_waker(t)),
            ({
                let done = old(self).first_live() - old(self).first_ticket;
                if done > 0 && done >= old(self).entries@.len() - done {
                    &&& final(self).first_ticket == old(self).first_live()
                    &&& final(self).entries@ == old(self).entries@.skip(done)
                } else {
                    &&& final(self).first_ticket == old(self).first_ticket
                    &&& final(self).entries@ == old(self).entries@
                }
            }),
    {
        let first_live = match self.tasks.running {
            Some(ticket) => ticket,
            None => self.first_ticket + self.entries.len(),
        };
        let done = first_live - self.first_ticket;
        if done > 0 && done >= self.entries.len() - done {
            let ghost before = self.entries@;
            let live = self.entries.split_off(done);
            self.entries = live;
            self.first_ticket = first_live;
            proof {
                assert(self.entries@ =~= before.skip(done as int));
                assert forall|i: int| #![trigger self.entries@[i]] 0 <= i < self.entries@.len() implies self.entries@[i].is_ready@
                    == self.ready@[self.first_ticket + i] && self.entries@[i].is_future_dropped@
                    == self.dropped@[self.first_ticket + i] by {
                    assert(self.entries@[i] == before[i + done]);
                }
                assert forall|k: int| 0 <= k < self.tasks.wakers@.len() implies self.first_ticket
                    <= #[trigger] self.tasks.wakers@[k] by {
                    assert(self.running()->0 < self.waiting()[k]);
                }
            }
        }
    }

    /// Hands the queue on: discards the waiting tickets at the front whose
    /// futures were dropped, grants the queue to the first of the rest and
    /// hands out its stored waker to be woken, or marks the queue idle.
    fn grant_next(&mut self) -> (woken: Option<Waker>)
        requires
            old(self).waiting_wf(),
        ensures
            Self::granted_next(*old(self), *final(self), woken),
    {
        // discard the waiting tickets whose futures were dropped
        while self.tasks.wakers.len() > 0 && self.is_dropped_at(self.tasks.wakers[0])
            invariant
                self.waiting_wf(),
                self.entries == old(self).entries,
                self.first_ticket == old(self).first_ticket,
                self.readiness() == old(self).readiness(),
                self.dropped() == old(self).dropped(),
                forall|t: usize| self.waiting().contains(t) ==> old(self).waiting().contains(t),
                skip_dropped(old(self).dropped(), self.waiting()) == skip_dropped(
                    old(self).dropped(),
                    old(self).waiting(),
                ),
            decreases self.waiting().len(),
        {
            let ghost before = self.waiting();
            self.tasks.wakers.pop_front();
            proof {
                let w = self.waiting();
                assert(w =~= before.drop_first());
                assert forall|t: usize| w.contains(t) implies old(self).waiting().contains(t) by {
                    let k = w.index_of(t);
                    assert(before[k + 1] == t);
                    assert(before.contains(t));
                }
                assert forall|k: int| 0 <= k < w.len() implies #[trigger] w[k] < self.readiness().len()
                    && !self.readiness()[w[k] as int] && self.first_ticket <= w[k] by {
                    assert(w[k] == before[k + 1]);
                }
                assert forall|a: int, b: int| 0 <= a < b < w.len() implies w[a] < w[b] by {
                    assert(w[a] == before[a + 1]);
                    assert(w[b] == before[b + 1]);
                }
            }
        }
        let ghost skipped = *self;
        proof {
            assert(skip_dropped(old(self).dropped(), self.waiting()) == self.waiting());
        }
        let next = self.tasks.wakers.pop_front();
        self.tasks.running = next;
        let woken = match next {
            Some(ticket) => {
                proof {
                    assert(skipped.waiting()[0] == ticket);
                    assert(skipped.first_ticket <= skipped.waiting()[0]);
                }
                let woken = self.make_ready(ticket);
                proof {
                    let r = self.readiness();
                    let w = self.waiting();
                    let ow = skipped.waiting();
                    assert forall|k: int| 0 <= k < w.len() implies #[trigger] w[k] < r.len()
                        && !r[w[k] as int] && ticket < w[k] && self.first_ticket <= w[k] by {
                        assert(w[k] == ow[k + 1]);
                        assert(ow[0] < ow[k + 1]);
                    }
                    assert forall|a: int, b: int| 0 <= a < b < w.len() implies w[a] < w[b] by {
                        assert(w[a] == ow[a + 1]);
                        assert(w[b] == ow[b + 1]);
                    }
                    assert forall|t: usize| w.contains(t) implies t != ticket && skipped.waiting().contains(t) by {
                        let k = w.index_of(t);
                        assert(ow[k + 1] == t);
                        assert(ow[0] < ow[k + 1]);
                    }
                }
                woken
            },
            None => None,
        };
        let ghost granted = *self;
        self.let_go_of_done();
        proof {
            assert forall|t: usize| old(self).waiting().contains(t) && self.waiting().contains(t)
                implies #[trigger] self.stored_waker(t) == old(self).stored_waker(t) by {
                assert(granted.is_live(t));
                assert(skipped.stored_waker(t) == old(self).stored_waker(t));
            }
        }
        woken
    }

    /// Takes the next ticket. When no task holds the queue, the ticket is
    /// granted it at once; otherwise it waits behind the waiting ones.
    pub fn acquire(&mut self) -> (future: TaskQueuePermitAcquireFuture)
        requires
            old(self).wf(),
            old(self).tickets() < usize::MAX,
        ensures
            TaskQueuePermitAcquireFuture::acquired(*old(self), *final(self), future),
            forall|t: usize|
                old(self).waiting().contains(t) ==> #[trigger] final(self).stored_waker(t) == old(
                    self,
                ).stored_waker(t),
            TaskQueue::step(*old(self), *final(self), (QueueOp::Acquire { ticket: future.ticket() })),
    {
        TaskQueuePermitAcquireFuture::new(self)
    }
}

impl TaskQueuePermitAcquireFuture {
    /// How `new` leaves the queue and the future: the ticket is the next
    /// number; it runs at once on an idle queue, else it joins the back of
    /// the waiting tickets; no other ticket changes.
    pub open spec fn acquired(
        old_queue: TaskQueue,
        queue: TaskQueue,
        future: TaskQueuePermitAcquireFuture,
    ) -> bool {
        let t = future.ticket();
        &&& queue.wf()
        &&& queue.is_live(t)
        &&& !queue.has_waker(t)
        &&& TaskQueue::wakers_kept(old_queue, queue)
        &&& future.is_pending()
        &&& t == old_queue.tickets()
        &&& queue.tickets() == old_queue.tickets() + 1
        &&& queue.dropped() == old_queue.dropped().push(false)
        &&& (old_queue.running() is None ==> {
            &&& queue.running() == Some(t)
            &&& queue.waiting() == old_queue.waiting()
            &&& queue.readiness() == old_queue.readiness().push(true)
        })
        &&& (old_queue.running() is Some ==> {
            &&& queue.running() == old_queue.running()
            &&& queue.waiting() == old_queue.waiting().push(t)
            &&& queue.readiness() == old_queue.readiness().push(false)
        })
    }

    /// Takes a ticket in `task_queue`: see [`Self::acquired`].
    pub fn new(task_queue: &mut TaskQueue) -> (future: Self)
        requires
            old(task_queue).wf(),
            old(task_queue).tickets() < usize::MAX,
        ensures
            Self::acquired(*old(task_queue), *final(task_queue), future),
            forall|t: usize|
                old(task_queue).waiting().contains(t) ==> #[trigger] final(task_queue).stored_waker(t)
                    == old(task_queue).stored_waker(t),
            TaskQueue::step(
                *old(task_queue),
                *final(task_queue),
                (QueueOp::Acquire { ticket: future.ticket() }),
            ),
    {
        let ticket = task_queue.ticket_count();
        let ghost old_ready = task_queue.readiness();
        let ghost old_dropped = task_queue.dropped();
        let mut waker = TaskQueueTaskWaker::new();
        if task_queue.tasks.running.is_none() {
            task_queue.tasks.running = Some(ticket);
            waker.is_ready.raise();
        } else {
            task_queue.tasks.wakers.push_back(ticket);
        }
        let ghost is_ready = waker.is_ready@;
        task_queue.entries.push(waker);
        proof {
            task_queue.ready@ = old_ready.push(is_ready);
            task_queue.dropped@ = old_dropped.push(false);
            let tq = *task_queue;
            assert forall|i: int| #![trigger tq.entries@[i]] 0 <= i < tq.entries@.len() implies tq.entries@[i].is_ready@
                == tq.ready@[tq.first_ticket + i] && tq.entries@[i].is_future_dropped@
                == tq.dropped@[tq.first_ticket + i] by {
                if i < tq.entries@.len() - 1 {
                    assert(tq.entries@[i] == old(task_queue).entries@[i]);
                }
            }
            let w = task_queue.waiting();
            let r = task_queue.readiness();
            if old(task_queue).running() is Some {
                let ow = old(task_queue).waiting();
                assert(w =~= ow.push(ticket));
                assert forall|k: int| 0 <= k < w.len() implies #[trigger] w[k] < r.len()
                    && !r[w[k] as int] && tq.first_ticket <= w[k] by {
                    if k < ow.len() {
                        assert(ow[k] < old_ready.len());
                    }
                }
                assert forall|a: int, b: int| 0 <= a < b < w.len() implies w[a] < w[b] by {
                    if b == ow.len() {
                        assert(ow[a] < old_ready.len());
                    }
                }
                assert forall|k: int| 0 <= k < w.len() implies task_queue.running()->0
                    < #[trigger] w[k] by {
                    if k < ow.len() {
                        assert(task_queue.running()->0 < ow[k]);
                    }
                }
            }
        }
        proof {
            if old(task_queue).running() is Some {
                let w = task_queue.waiting();
                assert(w[w.len() - 1] == ticket);
            }
            assert forall|t: usize| old(task_queue).waiting().contains(t) implies #[trigger] task_queue.stored_waker(t)
                == old(task_queue).stored_waker(t) by {
                let k = old(task_queue).waiting().index_of(t);
                assert(old(task_queue).waiting()[k] == t);
                assert(task_queue.entries@[t - task_queue.first_ticket] == old(task_queue).entries@[t
                    - task_queue.first_ticket]);
            }
        }
        TaskQueuePermitAcquireFuture { ticket, pending: true }
    }

    /// Whether the ticket of this future holds or waits for `task_queue`,
    /// which `poll` and `drop` of a pending future ask for.
    pub fn is_live_in(&self, task_queue: &TaskQueue) -> (live: bool)
        requires
            task_queue.wf(),
        ensures
            live == task_queue.is_live(self.ticket()),
    {
        if let Some(running) = task_queue.tasks.running {
            if running == self.ticket {
                return true;
            }
        }
        // the waiting tickets are in increasing order: search them
        let waiting = &task_queue.tasks.wakers;
        let ticket = self.ticket;
        let mut lo: usize = 0;
        let mut hi: usize = waiting.len();
        while lo < hi
            invariant
                0 <= lo <= hi <= waiting@.len(),
                waiting@ == task_queue.waiting(),
                task_queue.wf(),
                task_queue.running() != Some(ticket),
                ticket == self.ticket(),
                forall|k: int| 0 <= k < lo ==> waiting@[k] < ticket,
                forall|k: int| hi <= k < waiting@.len() ==> waiting@[k] > ticket,
            decreases hi - lo,
        {
            let mid = lo + (hi - lo) / 2;
            let found = waiting[mid];
            if found == ticket {
                proof {
                    assert(task_queue.waiting()[mid as int] == ticket);
                }
                return true;
            } else if found < ticket {
                proof {
                    assert forall|k: int| 0 <= k < mid + 1 implies waiting@[k] < ticket by {
                        if k < mid {
                            assert(waiting@[k] < waiting@[mid as int]);
                        }
                    }
                }
                lo = mid + 1;
            } else {
                proof {
                    assert forall|k: int| mid <= k < waiting@.len() implies waiting@[k] > ticket by {
                        if k > mid {
                            assert(waiting@[mid as int] < waiting@[k]);
                        }
                    }
                }
                hi = mid;
            }
        }
        proof {
            assert(!task_queue.waiting().contains(ticket));
        }
        false
    }

    /// Whether the future has resolved to a permit already.
    pub fn is_resolved(&self) -> (resolved: bool)
        ensures
            resolved == !self.is_pending(),
    {
        !self.pending
    }

    /// Polls for the permit: the future resolves exactly when its ticket
    /// has been granted the queue. Until then the waker of the polling task
    /// is stored, unless the stored one already wakes that task, so that
    /// the task is woken when the ticket is granted.
    pub fn poll(&mut self, task_queue: &mut TaskQueue, waker: Waker) -> (permit: Option<
        TaskQueuePermit,
    >)
        requires
            old(task_queue).wf(),
            old(self).is_pending(),
            old(task_queue).is_live(old(self).ticket()),
        ensures
            final(task_queue).wf(),
            final(task_queue).running() == old(task_queue).running(),
            final(task_queue).waiting() == old(task_queue).waiting(),
            final(task_queue).readiness() == old(task_queue).readiness(),
            final(task_queue).dropped() == old(task_queue).dropped(),
            final(task_queue).tickets() == old(task_queue).tickets(),
            TaskQueue::step(
                *old(task_queue),
                *final(task_queue),
                (QueueOp::Poll { ticket: old(self).ticket(), granted: permit is Some }),
            ),
            permit is Some <==> old(task_queue).readiness()[old(self).ticket() as int],
            permit matches Some(p) ==> {
                &&& p.ticket() == old(self).ticket()
                &&& old(task_queue).running() == Some(p.ticket())
                &&& final(self).ticket() == old(self).ticket()
                &&& !final(self).is_pending()
            },
            permit is None ==> {
                &&& *final(self) == *old(self)
                &&& final(task_queue).stored_waker(old(self).ticket()) == old(task_queue).stored_waker(old(self).ticket()) || final(task_queue).stored_waker(
                    old(self).ticket(),
                ) == Some(waker)
                &&& old(task_queue).stored_waker(old(self).ticket()) is None ==> final(task_queue).stored_waker(old(self).ticket()) == Some(waker)
            },
            forall|t: usize|
                t != old(self).ticket() ==> #[trigger] final(task_queue).stored_waker(t) == old(task_queue).stored_waker(t),
    {
        let ticket = self.ticket;
        proof {
            if old(task_queue).running() != Some(ticket) {
                let k = old(task_queue).waiting().index_of(ticket);
                assert(old(task_queue).waiting()[k] == ticket);
            }
        }
        if task_queue.is_ready_at(ticket) {
            self.pending = false;
            Some(TaskQueuePermit(ticket))
        } else {
            task_queue.store_waker(ticket, waker);
            None
        }
    }

    /// Drops the future. A future that has resolved leaves the queue as it
    /// is. A pending one marks its ticket dropped; if its ticket had been
    /// granted the queue, the queue is handed on (see
    /// [`TaskQueue::passed_on`]) and the waker of the task that now holds
    /// it is handed out to be woken.
    pub fn drop(self, task_queue: &mut TaskQueue) -> (woken: Option<Waker>)
        requires
            old(task_queue).wf(),
            self.is_pending() ==> old(task_queue).is_live(self.ticket()),
        ensures
            final(task_queue).wf(),
            TaskQueue::step(
                *old(task_queue),
                *final(task_queue),
                (QueueOp::DropFuture { ticket: self.ticket(), pending: self.is_pending() }),
            ),
            TaskQueue::wakers_kept(*old(task_queue), *final(task_queue)),
            final(task_queue).tickets() == old(task_queue).tickets(),
            !self.is_pending() ==> *final(task_queue) == *old(task_queue) && woken is None,
            self.is_pending() ==> final(task_queue).dropped() == old(task_queue).dropped().update(
                self.ticket() as int,
                true,
            ),
            self.is_pending() && !old(task_queue).readiness()[self.ticket() as int] ==> {
                &&& final(task_queue).running() == old(task_queue).running()
                &&& final(task_queue).waiting() == old(task_queue).waiting()
                &&& final(task_queue).readiness() == old(task_queue).readiness()
                &&& woken is None
            },
            self.is_pending() && old(task_queue).readiness()[self.ticket() as int]
                ==> TaskQueue::passed_on(*old(task_queue), *final(task_queue), self.ticket(), woken),
    {
        if self.pending {
            let ticket = self.ticket;
            proof {
                if old(task_queue).running() != Some(ticket) {
                    let k = old(task_queue).waiting().index_of(ticket);
                    assert(old(task_queue).waiting()[k] == ticket);
                }
            }
            task_queue.mark_dropped(ticket);
            if task_queue.is_ready_at(ticket) {
                let ghost marked = *task_queue;
                assert(task_queue.running() == Some(ticket));
                let woken = task_queue.grant_next();
                proof {
                    assert forall|t: usize| old(task_queue).waiting().contains(t) && task_queue.waiting().contains(t)
                        implies #[trigger] task_queue.stored_waker(t) == old(task_queue).stored_waker(t) by {
                        assert(marked.stored_waker(t) == old(task_queue).stored_waker(t));
                    }
                    let rest = skip_dropped(marked.dropped(), marked.waiting());
                    if rest.len() > 0 {
                        assert(marked.stored_waker(rest[0]) == old(task_queue).stored_waker(rest[0]));
                    }
                    assert(TaskQueue::passed_on(*old(task_queue), *task_queue, ticket, woken));
                }
                return woken;
            }
            proof {
                assert forall|t: usize| old(task_queue).waiting().contains(t) && task_queue.waiting().contains(t)
                    implies #[trigger] task_queue.stored_waker(t) == old(task_queue).stored_waker(t) by {}
            }
        }
        None
    }
}

impl TaskQueuePermit {
    /// Whether this permit's ticket holds `task_queue`, which `drop` asks
    /// for.
    pub fn holds(&self, task_queue: &TaskQueue) -> (holds: bool)
        ensures
            holds == (task_queue.running() == Some(self.ticket())),
    {
        match task_queue.tasks.running {
            Some(running) => running == self.0,
            None => false,
        }
    }

    /// Releases the permit: the queue is handed on to the first waiting
    /// ticket whose future was not dropped, and the waker stored for it is
    /// handed out to be woken; when no such ticket waits, the queue becomes
    /// idle. See [`TaskQueue::granted_next`].
    pub fn drop(self, task_queue: &mut TaskQueue) -> (woken: Option<Waker>)
        requires
            old(task_queue).wf(),
            old(task_queue).running() == Some(self.ticket()),
        ensures
            TaskQueue::granted_next(*old(task_queue), *final(task_queue), woken),
            TaskQueue::step(*old(task_queue), *final(task_queue), (QueueOp::Release { ticket: self.ticket() })),
    {
        task_queue.grant_next()
    }
}

/// Acquiring a ticket disturbs no waiting task: every ticket that waited
/// keeps the waker stored for it (so its task is still woken when the
/// ticket is granted the queue), and still waits, in the same place.
pub proof fn lemma_acquire_keeps_waiting_tasks(
    before: TaskQueue,
    after: TaskQueue,
    future: TaskQueuePermitAcquireFuture,
)
    requires
        TaskQueuePermitAcquireFuture::acquired(before, after, future),
    ensures
        forall|t: usize|
            before.waiting().contains(t) ==> #[trigger] after.stored_waker(t) == before.stored_waker(t)
                && after.waiting().contains(t),
        forall|k: int| 0 <= k < before.waiting().len() ==> #[trigger] after.waiting()[k] == before.waiting()[k],
{
    assert forall|t: usize| before.waiting().contains(t) implies #[trigger] after.stored_waker(t)
        == before.stored_waker(t) && after.waiting().contains(t) by {
        let k = before.waiting().index_of(t);
        assert(before.waiting()[k] == t);
        assert(after.waiting()[k] == t);
    }
}

/// At most one permit is alive at a time: in a run of operations from a
/// state in which `holder` holds the queue, as long as its permit is not
/// released (and so the future it came from is no longer pending), the
/// queue stays with `holder` and every poll that resolves to a permit is a
/// poll of `holder`'s own future.
pub proof fn lemma_one_permit_at_a_time(states: Seq<TaskQueue>, ops: Seq<QueueOp>, holder: usize)
    requires
        states.len() == ops.len() + 1,
        states[0].wf(),
        states[0].running() == Some(holder),
        forall|i: int| 0 <= i < ops.len() ==> #[trigger] TaskQueue::step(states[i], states[i + 1], ops[i]),
        forall|i: int| 0 <= i < ops.len() ==> !ends_turn_of(#[trigger] ops[i], holder),
    ensures
        forall|i: int| 0 <= i < states.len() ==> #[trigger] states[i].running() == Some(holder),
        forall|i: int|
            0 <= i < ops.len() ==> #[trigger] granted_ticket(ops[i]) is None || granted_ticket(ops[i])
                == Some(holder),
    decreases ops.len(),
{
    if ops.len() > 0 {
        let n = ops.len() - 1;
        let front = states.drop_last();
        let first_ops = ops.drop_last();
        assert forall|i: int| 0 <= i < first_ops.len() implies #[trigger] TaskQueue::step(
            front[i],
            front[i + 1],
            first_ops[i],
        ) by {
            assert(TaskQueue::step(states[i], states[i + 1], ops[i]));
        }
        assert forall|i: int| 0 <= i < first_ops.len() implies !ends_turn_of(#[trigger] first_ops[i], holder) by {
            assert(first_ops[i] == ops[i]);
        }
        lemma_one_permit_at_a_time(front, first_ops, holder);
        assert(front[n] == states[n]);
        assert(states[n].running() == Some(holder));
        assert(TaskQueue::step(states[n], states[n + 1], ops[n]));
        assert(!ends_turn_of(ops[n], holder));
        assert forall|i: int| 0 <= i < states.len() implies #[trigger] states[i].running() == Some(
            holder,
        ) by {
            if i < states.len() - 1 {
                assert(front[i] == states[i]);
            }
        }
        assert forall|i: int| 0 <= i < ops.len() implies #[trigger] granted_ticket(ops[i]) is None
            || granted_ticket(ops[i]) == Some(holder) by {
            if i < n {
                assert(first_ops[i] == ops[i]);
            } else {
                assert(states[i] == states[n]);
            }
        }
    }
}

/// Permits are granted in the order in which the tickets were taken: in a
/// run of operations from a state in which `earlier` holds or waits for the
/// queue, as long as its future is not dropped while pending and its
/// permit not released, it stays live and no poll of a later ticket
/// resolves to a permit.
pub proof fn lemma_granted_in_ticket_order(states: Seq<TaskQueue>, ops: Seq<QueueOp>, earlier: usize)
    requires
        states.len() == ops.len() + 1,
        states[0].wf(),
        states[0].is_live(earlier),
        !states[0].dropped()[earlier as int],
        forall|i: int| 0 <= i < ops.len() ==> #[trigger] TaskQueue::step(states[i], states[i + 1], ops[i]),
        forall|i: int| 0 <= i < ops.len() ==> !ends_turn_of(#[trigger] ops[i], earlier),
    ensures
        forall|i: int|
            0 <= i < states.len() ==> #[trigger] states[i].is_live(earlier) && !states[i].dropped()[earlier as int],
        forall|i: int|
            0 <= i < ops.len() ==> #[trigger] granted_ticket(ops[i]) is Some ==> granted_ticket(ops[i])->0
                <= earlier,
    decreases ops.len(),
{
    if ops.len() > 0 {
        let n = ops.len() - 1;
        let front = states.drop_last();
        let first_ops = ops.drop_last();
        assert forall|i: int| 0 <= i < first_ops.len() implies #[trigger] TaskQueue::step(
            front[i],
            front[i + 1],
            first_ops[i],
        ) by {
            assert(TaskQueue::step(states[i], states[i + 1], ops[i]));
        }
        assert forall|i: int| 0 <= i < first_ops.len() implies !ends_turn_of(#[trigger] first_ops[i], earlier) by {
            assert(first_ops[i] == ops[i]);
        }
        lemma_granted_in_ticket_order(front, first_ops, earlier);
        let before = states[n];
        let after = states[n + 1];
        assert(front[n] == before);
        assert(front[n].is_live(earlier));
        if n > 0 {
            let m = n - 1;
            assert(TaskQueue::step(states[m], states[m + 1], ops[m]));
            assert(states[m + 1] == before);
        }
        assert(before.wf());
        assert(TaskQueue::step(before, after, ops[n]));
        assert(!ends_turn_of(ops[n], earlier));
        lemma_step_keeps_live(before, after, ops[n], earlier);
        assert forall|i: int| 0 <= i < states.len() implies #[trigger] states[i].is_live(earlier)
            && !states[i].dropped()[earlier as int] by {
            if i < states.len() - 1 {
                assert(front[i] == states[i]);
            }
        }
        assert forall|i: int| 0 <= i < ops.len() && #[trigger] granted_ticket(ops[i]) is Some implies granted_ticket(ops[i])->0
            <= earlier by {
            if i < n {
                assert(first_ops[i] == ops[i]);
            } else if granted_ticket(ops[i])->0 > earlier {
                lemma_runs_in_ticket_order(before, earlier);
            }
        }
    }
}

/// One step keeps a live ticket whose future is not dropped live, unless
/// the step is the release of its permit or the drop of its pending future.
proof fn lemma_step_keeps_live(before: TaskQueue, after: TaskQueue, op: QueueOp, ticket: usize)
    requires
        before.wf(),
        before.is_live(ticket),
        !before.dropped()[ticket as int],
        TaskQueue::step(before, after, op),
        !ends_turn_of(op, ticket),
    ensures
        after.is_live(ticket),
        !after.dropped()[ticket as int],
{
    match op {
        QueueOp::Acquire { ticket: t } => {
            if before.running() is Some && before.running() != Some(ticket) {
                let k = before.waiting().index_of(ticket);
                assert(after.waiting()[k] == ticket);
            }
            assert(after.dropped()[ticket as int] == before.dropped()[ticket as int]);
        },
        QueueOp::Poll { .. } => {},
        QueueOp::DropFuture { ticket: t, pending } => {
            if pending && before.running() == Some(t) {
                let woken = choose|woken: Option<Waker>| TaskQueue::passed_on(before, after, t, woken);
                let k0 = before.waiting().index_of(ticket);
                assert(before.waiting()[k0] == ticket);
                lemma_skip_dropped_keeps_live(after.dropped(), before.waiting(), ticket);
                let rest = skip_dropped(after.dropped(), before.waiting());
                let k = rest.index_of(ticket);
                assert(rest[k] == ticket);
                if k > 0 {
                    assert(after.waiting()[k - 1] == ticket);
                }
            }
        },
        QueueOp::Release { ticket: t } => {
            let woken = choose|woken: Option<Waker>| TaskQueue::granted_next(before, after, woken);
            lemma_release_keeps_waiting(before, after, woken, ticket);
        },
    }
}

/// Tasks run one at a time: of all the tickets that hold or wait for the
/// queue, only the one that holds it has been granted it, so only its
/// future can resolve to a permit.
pub proof fn lemma_only_running_is_ready(queue: TaskQueue, ticket: usize)
    requires
        queue.wf(),
        queue.is_live(ticket),
        queue.readiness()[ticket as int],
    ensures
        queue.running() == Some(ticket),
{
    if queue.running() != Some(ticket) {
        let k = queue.waiting().index_of(ticket);
        assert(queue.waiting()[k] == ticket);
    }
}

/// Tasks run in the order in which they took their tickets: while a ticket
/// holds the queue, every ticket taken before it is done (neither holds nor
/// waits for the queue), and every waiting ticket was taken after it.
pub proof fn lemma_runs_in_ticket_order(queue: TaskQueue, earlier: usize)
    requires
        queue.wf(),
        queue.running() is Some,
        earlier < queue.running()->0,
    ensures
        !queue.is_live(earlier),
        forall|k: int|
            0 <= k < queue.waiting().len() ==> queue.running()->0 < #[trigger] queue.waiting()[k],
{
    if queue.waiting().contains(earlier) {
        let k = queue.waiting().index_of(earlier);
        assert(queue.waiting()[k] == earlier);
    }
}

/// The queue is served first come, first served: the ticket that is
/// granted next, the first waiting one, is the earliest waiting ticket.
pub proof fn lemma_next_is_earliest_waiting(queue: TaskQueue)
    requires
        queue.wf(),
        queue.waiting().len() > 0,
    ensures
        forall|k: int|
            0 <= k < queue.waiting().len() ==> queue.waiting()[0] <= #[trigger] queue.waiting()[k],
{
    assert forall|k: int| 0 <= k < queue.waiting().len() implies queue.waiting()[0]
        <= #[trigger] queue.waiting()[k] by {
        if k > 0 {
            assert(queue.waiting()[0] < queue.waiting()[k]);
        }
    }
}

/// Releasing the permit loses no waiting task: each waiting ticket whose
/// future was not dropped holds the queue or still waits afterwards.
pub proof fn lemma_release_keeps_waiting(
    before: TaskQueue,
    after: TaskQueue,
    woken: Option<Waker>,
    ticket: usize,
)
    requires
        before.wf(),
        TaskQueue::granted_next(before, after, woken),
        before.waiting().contains(ticket),
        !before.dropped()[ticket as int],
    ensures
        after.is_live(ticket),
{
    let k0 = before.waiting().index_of(ticket);
    assert(before.waiting()[k0] == ticket);
    lemma_skip_dropped_keeps_live(before.dropped(), before.waiting(), ticket);
    let rest = skip_dropped(before.dropped(), before.waiting());
    let k = rest.index_of(ticket);
    assert(rest[k] == ticket);
    if k > 0 {
        assert(after.waiting()[k - 1] == ticket);
    }
}

/// Releasing the permit lets another task proceed: the queue is handed to
/// a ticket whose future is alive (the waiting tickets whose futures were
/// dropped are passed over), or, when none waits, it becomes idle.
pub proof fn lemma_release_grants_live_future(
    before: TaskQueue,
    after: TaskQueue,
    woken: Option<Waker>,
)
    requires
        before.wf(),
        TaskQueue::granted_next(before, after, woken),
    ensures
        after.running() matches Some(t) ==> !after.dropped()[t as int],
{
    let w = before.waiting();
    assert forall|k: int| 0 <= k < w.len() implies #[trigger] w[k] < before.dropped().len() by {}
    lemma_skip_dropped_front_alive(before.dropped(), w);
}

/// The task that is granted the queue on a release is woken: when the
/// ticket that now holds the queue had a waker stored (its task polled
/// while it waited), that waker is the one handed out to be woken.
pub proof fn lemma_granted_task_is_woken(
    before: TaskQueue,
    after: TaskQueue,
    woken: Option<Waker>,
    ticket: usize,
)
    requires
        before.wf(),
        TaskQueue::granted_next(before, after, woken),
        after.running() == Some(ticket),
        before.has_waker(ticket),
    ensures
        woken == before.stored_waker(ticket),
        woken is Some,
{
}

/// What is left after discarding the dropped tickets at the front starts,
/// if it is not empty, with a ticket whose future was not dropped.
pub proof fn lemma_skip_dropped_front_alive(dropped: Seq<bool>, waiting: Seq<usize>)
    requires
        forall|k: int| 0 <= k < waiting.len() ==> #[trigger] waiting[k] < dropped.len(),
    ensures
        skip_dropped(dropped, waiting).len() > 0 ==> !dropped[skip_dropped(dropped, waiting)[0] as int],
    decreases waiting.len(),
{
    if waiting.len() > 0 && dropped[waiting[0] as int] {
        let rest = waiting.drop_first();
        assert forall|k: int| 0 <= k < rest.len() implies #[trigger] rest[k] < dropped.len() by {
            assert(rest[k] == waiting[k + 1]);
        }
        lemma_skip_dropped_front_alive(dropped, rest);
    }
}

/// Dropping the unresolved future of the running task passes the queue
/// on to a task that can take it: afterwards the queue is idle or held by
/// a ticket whose future is alive.
pub proof fn lemma_passed_on_to_live_future(
    before: TaskQueue,
    after: TaskQueue,
    ticket: usize,
    woken: Option<Waker>,
)
    requires
        before.wf(),
        TaskQueue::passed_on(before, after, ticket, woken),
    ensures
        after.running() matches Some(t) ==> !after.dropped()[t as int],
{
    let w = before.waiting();
    assert forall|k: int| 0 <= k < w.len() implies #[trigger] w[k] < after.dropped().len() by {}
    lemma_skip_dropped_front_alive(after.dropped(), w);
}

/// Discarding the dropped tickets at the front keeps every waiting ticket
/// whose future was not dropped, and keeps the order of the rest.
pub proof fn lemma_skip_dropped_keeps_live(dropped: Seq<bool>, waiting: Seq<usize>, ticket: usize)
    requires
        waiting.contains(ticket),
        0 <= ticket < dropped.len(),
        !dropped[ticket as int],
    ensures
        skip_dropped(dropped, waiting).contains(ticket),
        exists|j: int| 0 <= j <= waiting.len() && skip_dropped(dropped, waiting) == waiting.skip(j),
    decreases waiting.len(),
{
    if waiting.len() > 0 && 0 <= waiting[0] < dropped.len() && dropped[waiting[0] as int] {
        let k = waiting.index_of(ticket);
        assert(waiting[k] == ticket);
        assert(waiting.drop_first()[k - 1] == ticket);
        lemma_skip_dropped_keeps_live(dropped, waiting.drop_first(), ticket);
        let j = choose|j: int|
            0 <= j <= waiting.drop_first().len() && skip_dropped(dropped, waiting.drop_first())
                == waiting.drop_first().skip(j);
        assert(waiting.drop_first().skip(j) =~= waiting.skip(j + 1));
    } else {
        assert(waiting.skip(0) =~= waiting);
    }
}

} // verus!
