//! Wakes waiting tasks one notification at a time.
//!
//! Each call to [`Notify::notified`] makes a future with a slot of its
//! own; the notifier keeps the state in every slot, the count of
//! notifications that found no waiter, and the wakers of the futures that
//! wait, in the order in which they were polled. A slot is freed once
//! neither its future nor a waiting waker refers to it.
use std::collections::VecDeque;
use std::task::Waker;
use vstd::prelude::*;

verus! {

/// Where a notified future stands.
#[derive(Clone, Copy, PartialEq, Eq, Structural, Debug)]
pub enum NotifyState {
    /// Not notified yet.
    Pending,
    /// Notified: the future resolves.
    Notified,
    /// Dropped before it was notified.
    Dropped,
}

impl Default for NotifyState {
    /// A future starts pending.
    fn default() -> (state: Self)
        ensures
            state == NotifyState::Pending,
    {
        NotifyState::Pending
    }
}

/// The waker of a waiting future, with the slot of that future.
pub struct WakerWithState {
    inner: Waker,
    notify_state: usize,
}

impl WakerWithState {
    /// The slot of the future that this waker belongs to.
    pub closed spec fn future(&self) -> usize {
        self.notify_state
    }

    /// The waker of the waiting task.
    pub closed spec fn waker(&self) -> Waker {
        self.inner
    }

    /// Marks the future notified, and hands out the waker of its task to
    /// be woken.
    pub fn notify(self, states: &mut Vec<NotifyState>) -> (woken: Waker)
        requires
            self.future() < old(states)@.len(),
        ensures
            final(states)@ == old(states)@.update(self.future() as int, NotifyState::Notified),
            woken == self.waker(),
    {
        states.set(self.notify_state, NotifyState::Notified);
        self.inner
    }

    /// Whether the future was dropped before it was notified.
    pub fn is_future_dropped(&self, states: &Vec<NotifyState>) -> (dropped: bool)
        requires
            self.future() < states@.len(),
        ensures
            dropped == (states@[self.future() as int] == NotifyState::Dropped),
    {
        states[self.notify_state] == NotifyState::Dropped
    }
}

/// The state that a notifier shares with its futures.
///
/// Each future has a slot: its state, and how many holders refer to it
/// (the future itself while it lives, and each of its waiting wakers).
/// A slot that nothing refers to any more is free, and the next future
/// made takes it.
pub struct NotifyInner {
    pending_notify: usize,
    wakers: VecDeque<WakerWithState>,
    states: Vec<NotifyState>,
    refs: Vec<usize>,
    free: Vec<usize>,
    handles: Ghost<Seq<bool>>,
}

/// Notifies waiting tasks, one per notification; a notification that
/// finds no waiting task is kept for the next one.
pub struct Notify(NotifyInner);

/// A future that resolves once it is notified.
pub struct NotifiedFuture {
    notify_state: usize,
}

impl NotifiedFuture {
    /// The slot of this future.
    pub closed spec fn id(&self) -> usize {
        self.notify_state
    }
}

/// `waiting` without the run of futures at its front that `states` marks
/// dropped.
pub open spec fn skip_dropped_waiters(states: Seq<NotifyState>, waiting: Seq<usize>) -> Seq<usize>
    decreases waiting.len(),
{
    if waiting.len() > 0 && 0 <= waiting[0] < states.len() && states[waiting[0] as int]
        == NotifyState::Dropped {
        skip_dropped_waiters(states, waiting.drop_first())
    } else {
        waiting
    }
}

/// How many times `x` occurs in `s`.
pub open spec fn occurrences(s: Seq<usize>, x: usize) -> nat
    decreases s.len(),
{
    if s.len() == 0 {
        0
    } else {
        occurrences(s.drop_last(), x) + if s.last() == x {
            1nat
        } else {
            0nat
        }
    }
}

/// Appending `y` adds one occurrence of `y` and none of anything else.
proof fn lemma_occurrences_push(s: Seq<usize>, y: usize, x: usize)
    ensures
        occurrences(s.push(y), x) == occurrences(s, x) + if y == x {
            1nat
        } else {
            0nat
        },
{
    assert(s.push(y).drop_last() =~= s);
}

/// Removing the first element takes away one occurrence of it.
proof fn lemma_occurrences_drop_first(s: Seq<usize>, x: usize)
    requires
        s.len() > 0,
    ensures
        occurrences(s, x) == occurrences(s.drop_first(), x) + if s[0] == x {
            1nat
        } else {
            0nat
        },
    decreases s.len(),
{
    if s.len() == 1 {
        assert(s.drop_last() =~= Seq::<usize>::empty());
        assert(s.drop_first() =~= Seq::<usize>::empty());
    } else {
        lemma_occurrences_drop_first(s.drop_last(), x);
        assert(s.drop_last().drop_first() =~= s.drop_first().drop_last());
    }
}

/// An element that occurs nowhere is not contained, and the count is at
/// most the length.
proof fn lemma_occurrences_bounds(s: Seq<usize>, x: usize)
    ensures
        occurrences(s, x) <= s.len(),
        occurrences(s, x) == 0 <==> !s.contains(x),
    decreases s.len(),
{
    if s.len() > 0 {
        lemma_occurrences_bounds(s.drop_last(), x);
        if !s.contains(x) {
            assert(s.last() != x);
            if s.drop_last().contains(x) {
                let k = s.drop_last().index_of(x);
                assert(s[k] == x);
            }
        }
        if occurrences(s, x) > 0 && !s.contains(x) {
            assert(false);
        }
        if occurrences(s, x) == 0 && s.contains(x) {
            let k = s.index_of(x);
            if k < s.len() - 1 {
                assert(s.drop_last()[k] == x);
            }
        }
    }
}

impl Notify {
    /// How many notifications wait for a future to take them.
    pub closed spec fn pending_notify(&self) -> nat {
        self.0.pending_notify as nat
    }

    /// The slots of the futures whose wakers wait, first to be notified
    /// first.
    pub closed spec fn waiting(&self) -> Seq<usize> {
        self.0.wakers@.map_values(|w: WakerWithState| w.future())
    }

    /// The wakers of the waiting futures, in the order of `waiting`.
    pub closed spec fn waiter_wakers(&self) -> Seq<Waker> {
        self.0.wakers@.map_values(|w: WakerWithState| w.waker())
    }

    /// The state of every slot.
    pub closed spec fn states(&self) -> Seq<NotifyState> {
        self.0.states@
    }

    /// Per slot, whether a future that has not been dropped holds it.
    pub closed spec fn handles(&self) -> Seq<bool> {
        self.0.handles@
    }

    /// Whether `id` is the slot of a future that has not been dropped.
    pub open spec fn has_future(&self, id: usize) -> bool {
        id < self.handles().len() && self.handles()[id as int]
    }

    /// The count of holders of every slot is right, a held slot is not
    /// dropped, and the free slots are distinct slots with no holder.
    pub closed spec fn slots_wf(&self) -> bool {
        let inner = self.0;
        &&& inner.refs@.len() == inner.states@.len()
        &&& inner.handles@.len() == inner.states@.len()
        &&& forall|s: usize|
            s < inner.states@.len() ==> #[trigger] inner.refs@[s as int] == occurrences(
                self.waiting(),
                s,
            ) + if inner.handles@[s as int] {
                1nat
            } else {
                0nat
            }
        &&& forall|s: int|
            0 <= s < inner.states@.len() && #[trigger] inner.handles@[s] ==> inner.states@[s]
                != NotifyState::Dropped
        &&& forall|k: int|
            0 <= k < inner.free@.len() ==> #[trigger] inner.free@[k] < inner.states@.len()
                && inner.refs@[inner.free@[k] as int] == 0
        &&& inner.free@.no_duplicates()
    }

    /// Every waiting waker belongs to a slot, and the slots are kept right.
    pub open spec fn wf(&self) -> bool {
        &&& forall|k: int|
            0 <= k < self.waiting().len() ==> #[trigger] self.waiting()[k] < self.states().len()
        &&& self.handles().len() == self.states().len()
        &&& self.slots_wf()
    }

    /// What `notify_one` leaves: the first waiting future that was not
    /// dropped is notified and the waker it registered is handed out to be
    /// woken (`woken`), and it and the dropped ones before it stop waiting;
    /// when there is none, no future waits any more, one more notification
    /// is kept and no waker is handed out.
    pub open spec fn notified_one(before: Notify, after: Notify, woken: Option<Waker>) -> bool {
        let rest = skip_dropped_waiters(before.states(), before.waiting());
        let k = before.waiting().len() - rest.len();
        &&& after.wf()
        &&& after.handles() == before.handles()
        &&& after.states().len() == before.states().len()
        &&& (rest.len() == 0 ==> {
            &&& after.waiting() == rest
            &&& after.waiter_wakers() == Seq::<Waker>::empty()
            &&& after.states() == before.states()
            &&& after.pending_notify() == before.pending_notify() + 1
            &&& woken is None
        })
        &&& (rest.len() > 0 ==> {
            &&& after.waiting() == rest.drop_first()
            &&& after.waiter_wakers() == before.waiter_wakers().skip(k + 1)
            &&& after.states() == before.states().update(rest[0] as int, NotifyState::Notified)
            &&& after.pending_notify() == before.pending_notify()
            &&& woken == Some(before.waiter_wakers()[k])
        })
    }
}

impl Default for Notify {
    /// A notifier with no future and no kept notification.
    fn default() -> (notify: Self)
        ensures
            notify.wf(),
            notify.pending_notify() == 0,
            notify.waiting() == Seq::<usize>::empty(),
            notify.states() == Seq::<NotifyState>::empty(),
            notify.handles() == Seq::<bool>::empty(),
    {
        let notify = Notify(
            NotifyInner {
                pending_notify: 0,
                wakers: VecDeque::new(),
                states: Vec::new(),
                refs: Vec::new(),
                free: Vec::new(),
                handles: Ghost(Seq::empty()),
            },
        );
        proof {
            assert(notify.waiting() =~= Seq::<usize>::empty());
        }
        notify
    }
}

impl Notify {
    /// A notifier with no future and no kept notification.
    pub fn new() -> (notify: Self)
        ensures
            notify.wf(),
            notify.pending_notify() == 0,
            notify.waiting() == Seq::<usize>::empty(),
            notify.states() == Seq::<NotifyState>::empty(),
            notify.handles() == Seq::<bool>::empty(),
    {
        Self::default()
    }

    /// Gives up one holder of slot `id` (a waker that left the queue, or
    /// a future that was dropped); a slot left with no holder is freed.
    fn release(&mut self, id: usize)
        requires
            id < old(self).0.refs@.len(),
            old(self).0.refs@[id as int] > 0,
            old(self).0.refs@.len() == old(self).0.states@.len(),
            forall|k: int|
                0 <= k < old(self).0.free@.len() ==> #[trigger] old(self).0.free@[k]
                    < old(self).0.states@.len() && old(self).0.refs@[old(self).0.free@[k] as int]
                    == 0,
            old(self).0.free@.no_duplicates(),
        ensures
            final(self).0.refs@ == old(self).0.refs@.update(id as int, (old(self).0.refs@[id as int] - 1) as usize),
            final(self).0.states@ == old(self).0.states@,
            final(self).0.handles@ == old(self).0.handles@,
            final(self).0.wakers@ == old(self).0.wakers@,
            final(self).0.pending_notify == old(self).0.pending_notify,
            forall|k: int|
                0 <= k < final(self).0.free@.len() ==> #[trigger] final(self).0.free@[k]
                    < final(self).0.states@.len() && final(self).0.refs@[final(self).0.free@[k] as int]
                    == 0,
            final(self).0.free@.no_duplicates(),
    {
        let count = self.0.refs[id] - 1;
        self.0.refs.set(id, count);
        if count == 0 {
            proof {
                assert forall|k: int| 0 <= k < self.0.free@.len() implies self.0.free@[k] != id by {
                    assert(old(self).0.refs@[old(self).0.free@[k] as int] == 0);
                }
            }
            self.0.free.push(id);
            proof {
                let f = self.0.free@;
                assert forall|i: int, j: int| 0 <= i < f.len() && 0 <= j < f.len() && i != j implies f[i] != f[j] by {
                    if i < f.len() - 1 && j < f.len() - 1 {
                        assert(f[i] == old(self).0.free@[i]);
                        assert(f[j] == old(self).0.free@[j]);
                    }
                }
            }
        }
    }

    /// Notifies the first waiting future that was not dropped and wakes its
    /// task; when none waits, keeps the notification for the next future
    /// that is polled. See [`Self::notified_one`].
    pub fn notify_one(&mut self) -> (woken: Option<Waker>)
        requires
            old(self).wf(),
            old(self).pending_notify() < usize::MAX,
        ensures
            Self::notified_one(*old(self), *final(self), woken),
            woken is None <==> forall|i: int|
                0 <= i < old(self).waiting().len() ==> old(self).states()[#[trigger] old(
                    self,
                ).waiting()[i] as int] == NotifyState::Dropped,
            woken is None ==> final(self).pending_notify() == old(self).pending_notify() + 1,
    {
        let ghost states = self.0.states@;
        let ghost entries = self.0.wakers@;
        let ghost mut popped: int = 0;
        let mut maybe_waker: Option<WakerWithState> = None;
        loop
            invariant_except_break
                maybe_waker is None,
            invariant
                self.wf(),
                entries == old(self).0.wakers@,
                0 <= popped <= entries.len(),
                self.0.wakers@ == entries.skip(popped),
                maybe_waker matches Some(w) ==> popped > 0 && w == entries[popped - 1],
                self.0.states@ == states,
                self.0.handles@ == old(self).0.handles@,
                self.0.pending_notify == old(self).0.pending_notify,
                skip_dropped_waiters(states, old(self).waiting()) == (match maybe_waker {
                    None => skip_dropped_waiters(states, self.waiting()),
                    Some(w) => seq![w.future()] + self.waiting(),
                }),
                maybe_waker matches Some(w) ==> w.future() < states.len() && states[w.future()
                    as int] != NotifyState::Dropped,
            ensures
                maybe_waker is None ==> self.waiting().len() == 0 && skip_dropped_waiters(
                    states,
                    old(self).waiting(),
                ).len() == 0 && popped == entries.len(),
            decreases self.0.wakers@.len(),
        {
            let ghost before = self.waiting();
            let ghost before_refs = self.0.refs@;
            let ghost before_entries = self.0.wakers@;
            match self.0.wakers.pop_front() {
                Some(waker) => {
                    let id = waker.notify_state;
                    proof {
                        assert(self.0.wakers@ =~= entries.skip(popped + 1));
                        assert(waker == entries[popped]);
                        popped = popped + 1;
                        assert(self.waiting() =~= before.drop_first());
                        assert(before[0] == waker.future());
                        lemma_occurrences_drop_first(before, id);
                        assert(before_refs[id as int] == occurrences(before, id) + if self.0.handles@[id as int] {
                            1nat
                        } else {
                            0nat
                        });
                    }
                    self.release(id);
                    proof {
                        assert forall|s: usize| s < self.0.states@.len() implies #[trigger] self.0.refs@[s as int]
                            == occurrences(self.waiting(), s) + if self.0.handles@[s as int] {
                            1nat
                        } else {
                            0nat
                        } by {
                            lemma_occurrences_drop_first(before, s);
                            assert(before_refs[s as int] == occurrences(before, s) + if self.0.handles@[s as int] {
                                1nat
                            } else {
                                0nat
                            });
                        }
                        assert forall|k: int| 0 <= k < self.waiting().len() implies #[trigger] self.waiting()[k]
                            < self.states().len() by {
                            assert(self.waiting()[k] == before[k + 1]);
                        }
                    }
                    if !waker.is_future_dropped(&self.0.states) {
                        maybe_waker = Some(waker);
                        break ;
                    }
                },
                None => {
                    proof {
                        assert(before =~= Seq::<usize>::empty());
                        assert(before_entries.len() == 0);
                    }
                    break ;
                },
            }
        }
        proof {
            assert(old(self).waiting().len() == entries.len());
            assert(self.waiting().len() == self.0.wakers@.len());
        }
        let woken = match maybe_waker {
            Some(waker) => {
                let ghost rest = seq![waker.future()] + self.waiting();
                proof {
                    assert(rest[0] == waker.future());
                    assert(rest.drop_first() =~= self.waiting());
                    assert(old(self).waiter_wakers()[popped - 1] == waker.waker());
                    assert(self.waiter_wakers() =~= old(self).waiter_wakers().skip(popped));
                }
                let woken = waker.notify(&mut self.0.states);
                Some(woken)
            },
            None => {
                // no waiter, so the next future polled is notified at once
                self.0.pending_notify = self.0.pending_notify + 1;
                proof {
                    assert(self.waiter_wakers() =~= Seq::<Waker>::empty());
                }
                None
            },
        };
        proof {
            lemma_notify_one_wakes_first_live_waiter(*old(self), *self, woken);
        }
        woken
    }

    /// How many notifications wait for a future to take them.
    pub fn kept_notifications(&self) -> (count: usize)
        ensures
            count == self.pending_notify(),
    {
        self.0.pending_notify
    }

    /// How many slots there are.
    pub fn future_count(&self) -> (count: usize)
        ensures
            count == self.states().len(),
    {
        self.0.states.len()
    }

    /// How many wakers wait.
    pub fn waiter_count(&self) -> (count: usize)
        ensures
            count == self.waiting().len(),
    {
        self.0.wakers.len()
    }

    /// Makes a new pending future: it takes a free slot, one that no
    /// future and no waker refers to, or else a new slot after the others.
    pub fn notified(&mut self) -> (future: NotifiedFuture)
        requires
            old(self).wf(),
            old(self).states().len() < usize::MAX,
        ensures
            final(self).wf(),
            final(self).waiting() == old(self).waiting(),
            final(self).waiter_wakers() == old(self).waiter_wakers(),
            final(self).pending_notify() == old(self).pending_notify(),
            final(self).has_future(future.id()),
            final(self).states()[future.id() as int] == NotifyState::Pending,
            future.id() <= old(self).states().len(),
            future.id() < old(self).states().len() ==> {
                &&& !old(self).handles()[future.id() as int]
                &&& !old(self).waiting().contains(future.id())
                &&& final(self).states() == old(self).states().update(
                    future.id() as int,
                    NotifyState::Pending,
                )
                &&& final(self).handles() == old(self).handles().update(future.id() as int, true)
            },
            future.id() == old(self).states().len() ==> {
                &&& final(self).states() == old(self).states().push(NotifyState::Pending)
                &&& final(self).handles() == old(self).handles().push(true)
            },
    {
        let ghost old_refs = self.0.refs@;
        match self.0.free.pop() {
            Some(id) => {
                proof {
                    let f = old(self).0.free@;
                    assert(f[f.len() - 1] == id);
                    assert(old_refs[id as int] == 0);
                    lemma_occurrences_bounds(old(self).waiting(), id);
                    assert forall|k: int| 0 <= k < self.0.free@.len() implies #[trigger] self.0.free@[k]
                        < self.0.states@.len() && self.0.refs@[self.0.free@[k] as int] == 0 by {
                        assert(self.0.free@[k] == f[k]);
                    }
                    assert forall|i: int, j: int| 0 <= i < self.0.free@.len() && 0 <= j < self.0.free@.len() && i != j
                        implies self.0.free@[i] != self.0.free@[j] by {
                        assert(self.0.free@[i] == f[i]);
                        assert(self.0.free@[j] == f[j]);
                    }
                }
                self.0.states.set(id, NotifyState::default());
                self.0.refs.set(id, 1);
                proof {
                    self.0.handles@ = self.0.handles@.update(id as int, true);
                    assert forall|k: int| 0 <= k < self.0.free@.len() implies #[trigger] self.0.free@[k]
                        < self.0.states@.len() && self.0.refs@[self.0.free@[k] as int] == 0 by {
                        let f = old(self).0.free@;
                        assert(self.0.free@[k] == f[k]);
                        assert(f[k] != f[f.len() - 1]);
                    }
                    assert forall|s: usize| s < self.0.states@.len() implies #[trigger] self.0.refs@[s as int]
                        == occurrences(self.waiting(), s) + if self.0.handles@[s as int] {
                        1nat
                    } else {
                        0nat
                    } by {
                        if s != id {
                            assert(self.0.refs@[s as int] == old_refs[s as int]);
                        }
                    }
                }
                NotifiedFuture { notify_state: id }
            },
            None => {
                let id = self.0.states.len();
                self.0.states.push(NotifyState::default());
                self.0.refs.push(1);
                proof {
                    self.0.handles@ = self.0.handles@.push(true);
                    lemma_occurrences_bounds(self.waiting(), id);
                    assert forall|k: int| 0 <= k < self.waiting().len() implies #[trigger] self.waiting()[k]
                        < self.states().len() by {
                        assert(self.waiting()[k] == old(self).waiting()[k]);
                    }
                    assert forall|s: usize| s < self.0.states@.len() implies #[trigger] self.0.refs@[s as int]
                        == occurrences(self.waiting(), s) + if self.0.handles@[s as int] {
                        1nat
                    } else {
                        0nat
                    } by {
                        if s < id {
                            assert(self.0.refs@[s as int] == old_refs[s as int]);
                        } else {
                            assert(self.waiting() == old(self).waiting());
                            if self.waiting().contains(id) {
                                let k = self.waiting().index_of(id);
                                assert(old(self).waiting()[k] < old(self).states().len());
                            }
                            lemma_occurrences_bounds(self.waiting(), id);
                        }
                    }
                    assert forall|s: int| 0 <= s < self.0.states@.len() && #[trigger] self.0.handles@[s]
                        implies self.0.states@[s] != NotifyState::Dropped by {
                        if s < id {
                            assert(self.0.states@[s] == old(self).0.states@[s]);
                        }
                    }
                    assert forall|k: int| 0 <= k < self.0.free@.len() implies #[trigger] self.0.free@[k]
                        < self.0.states@.len() && self.0.refs@[self.0.free@[k] as int] == 0 by {
                        assert(old(self).0.free@[k] < old(self).0.states@.len());
                    }
                }
                NotifiedFuture { notify_state: id }
            },
        }
    }
}

impl NotifiedFuture {
    /// Polls the future; `true` means it resolved. A notified future
    /// resolves. A pending one takes a kept notification if there is one
    /// and resolves; otherwise its waker joins the back of the waiting
    /// wakers and it stays pending.
    pub fn poll(&self, notify: &mut Notify, waker: Waker) -> (ready: bool)
        requires
            old(notify).wf(),
            old(notify).has_future(self.id()),
            old(notify).waiting().len() + 1 < usize::MAX,
        ensures
            final(notify).wf(),
            final(notify).handles() == old(notify).handles(),
            old(notify).states()[self.id() as int] != NotifyState::Dropped,
            ready == (final(notify).states()[self.id() as int] == NotifyState::Notified),
            old(notify).states()[self.id() as int] == NotifyState::Notified ==> {
                &&& final(notify).states() == old(notify).states()
                &&& final(notify).waiting() == old(notify).waiting()
                &&& final(notify).waiter_wakers() == old(notify).waiter_wakers()
                &&& final(notify).pending_notify() == old(notify).pending_notify()
            },
            old(notify).states()[self.id() as int] == NotifyState::Pending
                && old(notify).pending_notify() > 0 ==> {
                &&& final(notify).pending_notify() == old(notify).pending_notify() - 1
                &&& final(notify).states() == old(notify).states().update(
                    self.id() as int,
                    NotifyState::Notified,
                )
                &&& final(notify).waiting() == old(notify).waiting()
                &&& final(notify).waiter_wakers() == old(notify).waiter_wakers()
            },
            old(notify).states()[self.id() as int] == NotifyState::Pending
                && old(notify).pending_notify() == 0 ==> {
                &&& final(notify).pending_notify() == 0
                &&& final(notify).states() == old(notify).states()
                &&& final(notify).waiting() == old(notify).waiting().push(self.id())
                &&& final(notify).waiter_wakers() == old(notify).waiter_wakers().push(waker)
            },
    {
        let id = self.notify_state;
        let inner = &mut notify.0;
        if inner.states[id] == NotifyState::Pending {
            if inner.pending_notify > 0 {
                inner.pending_notify = inner.pending_notify - 1;
                inner.states.set(id, NotifyState::Notified);
                return true;
            }
            let ghost old_waiting = old(notify).waiting();
            proof {
                lemma_occurrences_bounds(old_waiting, id);
            }
            let count = inner.refs[id] + 1;
            inner.refs.set(id, count);
            let entry = WakerWithState { inner: waker, notify_state: id };
            inner.wakers.push_back(entry);
            proof {
                assert(notify.waiting() =~= old_waiting.push(id));
                assert(notify.waiter_wakers() =~= old(notify).waiter_wakers().push(waker));
                assert forall|s: usize| s < notify.0.states@.len() implies #[trigger] notify.0.refs@[s as int]
                    == occurrences(notify.waiting(), s) + if notify.0.handles@[s as int] {
                    1nat
                } else {
                    0nat
                } by {
                    lemma_occurrences_push(old_waiting, id, s);
                }
                assert forall|k: int| 0 <= k < notify.0.free@.len() implies #[trigger] notify.0.free@[k]
                    < notify.0.states@.len() && notify.0.refs@[notify.0.free@[k] as int] == 0 by {
                    if notify.0.free@[k] == id {
                        assert(old(notify).0.refs@[id as int] == 0);
                    }
                }
            }
            false
        } else {
            true
        }
    }

    /// Drops the future: a future that was not notified is marked dropped,
    /// so that no notification is spent on it; its slot is freed once no
    /// waker refers to it either.
    pub fn drop(self, notify: &mut Notify)
        requires
            old(notify).wf(),
            old(notify).has_future(self.id()),
        ensures
            final(notify).wf(),
            final(notify).pending_notify() == old(notify).pending_notify(),
            final(notify).waiting() == old(notify).waiting(),
            final(notify).waiter_wakers() == old(notify).waiter_wakers(),
            final(notify).handles() == old(notify).handles().update(self.id() as int, false),
            old(notify).states()[self.id() as int] == NotifyState::Pending
                ==> final(notify).states() == old(notify).states().update(self.id() as int, NotifyState::Dropped),
            old(notify).states()[self.id() as int] != NotifyState::Pending
                ==> final(notify).states() == old(notify).states(),
    {
        let id = self.notify_state;
        if notify.0.states[id] == NotifyState::Pending {
            notify.0.states.set(id, NotifyState::Dropped);
        }
        let ghost old_refs = notify.0.refs@;
        notify.release(id);
        proof {
            notify.0.handles@ = notify.0.handles@.update(id as int, false);
            assert forall|s: usize| s < notify.0.states@.len() implies #[trigger] notify.0.refs@[s as int]
                == occurrences(notify.waiting(), s) + if notify.0.handles@[s as int] {
                1nat
            } else {
                0nat
            } by {
                assert(old_refs[s as int] == old(notify).0.refs@[s as int]);
            }
            assert forall|s: int| 0 <= s < notify.0.states@.len() && #[trigger] notify.0.handles@[s]
                implies notify.0.states@[s] != NotifyState::Dropped by {
                assert(s != id);
            }
        }
    }
}

/// What is left after discarding the dropped futures at the front of the
/// waiting ones is a suffix of them that starts, if it is not empty, with a
/// future that was not dropped; every waiting future that was not dropped
/// is in it.
pub proof fn lemma_skip_dropped_waiters(states: Seq<NotifyState>, waiting: Seq<usize>)
    requires
        forall|k: int| 0 <= k < waiting.len() ==> #[trigger] waiting[k] < states.len(),
    ensures
        exists|j: int|
            0 <= j <= waiting.len() && skip_dropped_waiters(states, waiting) == waiting.skip(j)
                && forall|i: int|
                0 <= i < j ==> states[#[trigger] waiting[i] as int] == NotifyState::Dropped,
        skip_dropped_waiters(states, waiting).len() > 0 ==> states[skip_dropped_waiters(
            states,
            waiting,
        )[0] as int] != NotifyState::Dropped,
    decreases waiting.len(),
{
    if waiting.len() > 0 && states[waiting[0] as int] == NotifyState::Dropped {
        let rest = waiting.drop_first();
        assert forall|k: int| 0 <= k < rest.len() implies #[trigger] rest[k] < states.len() by {
            assert(rest[k] == waiting[k + 1]);
        }
        lemma_skip_dropped_waiters(states, rest);
        let j = choose|j: int|
            0 <= j <= rest.len() && skip_dropped_waiters(states, rest) == rest.skip(j) && forall|
                i: int,
            | 0 <= i < j ==> states[#[trigger] rest[i] as int] == NotifyState::Dropped;
        assert(rest.skip(j) =~= waiting.skip(j + 1));
        assert forall|i: int| 0 <= i < j + 1 implies states[#[trigger] waiting[i] as int]
            == NotifyState::Dropped by {
            if i > 0 {
                assert(waiting[i] == rest[i - 1]);
            }
        }
    } else {
        assert(waiting.skip(0) =~= waiting);
    }
}

/// `notify_one` wakes the first waiting future that was not dropped: when
/// one waits, that future is notified and the waker it registered is the
/// one handed out, however many dropped waiters are passed over before it;
/// only when every waiting future was dropped is no waker handed out, and
/// the notification is kept instead.
pub proof fn lemma_notify_one_wakes_first_live_waiter(
    before: Notify,
    after: Notify,
    woken: Option<Waker>,
)
    requires
        before.wf(),
        Notify::notified_one(before, after, woken),
    ensures
        woken is None <==> forall|i: int|
            0 <= i < before.waiting().len() ==> before.states()[#[trigger] before.waiting()[i] as int]
                == NotifyState::Dropped,
        woken is None ==> after.pending_notify() == before.pending_notify() + 1,
        woken matches Some(w) ==> exists|k: int|
            {
                &&& 0 <= k < before.waiting().len()
                &&& before.waiter_wakers()[k] == w
                &&& before.states()[before.waiting()[k] as int] != NotifyState::Dropped
                &&& after.states()[before.waiting()[k] as int] == NotifyState::Notified
                &&& forall|i: int|
                    0 <= i < k ==> before.states()[#[trigger] before.waiting()[i] as int]
                        == NotifyState::Dropped
            },
{
    let states = before.states();
    let waiting = before.waiting();
    lemma_skip_dropped_waiters(states, waiting);
    let rest = skip_dropped_waiters(states, waiting);
    let j = choose|j: int|
        0 <= j <= waiting.len() && rest == waiting.skip(j) && forall|i: int|
            0 <= i < j ==> states[#[trigger] waiting[i] as int] == NotifyState::Dropped;
    assert(before.waiter_wakers().len() == waiting.len());
    if rest.len() > 0 {
        let k = waiting.len() - rest.len();
        assert(k == j);
        assert(rest[0] == waiting[k]);
        assert(woken is Some);
        assert(0 <= k < waiting.len() && before.waiter_wakers()[k] == woken->0 && states[waiting[k] as int]
            != NotifyState::Dropped && after.states()[waiting[k] as int] == NotifyState::Notified);
        assert(!(forall|i: int|
            0 <= i < waiting.len() ==> states[#[trigger] waiting[i] as int] == NotifyState::Dropped)) by {
            assert(states[waiting[k] as int] != NotifyState::Dropped);
        }
    } else {
        assert(j == waiting.len());
    }
}

/// A notification is never spent on a dropped future, and no waiting
/// future that was not dropped is lost: after `notify_one`, each such
/// future was the one notified or still waits.
pub proof fn lemma_notify_one_keeps_waiters(
    before: Notify,
    after: Notify,
    woken: Option<Waker>,
    id: usize,
)
    requires
        before.wf(),
        Notify::notified_one(before, after, woken),
        before.waiting().contains(id),
        before.states()[id as int] != NotifyState::Dropped,
    ensures
        after.waiting().contains(id) || (after.states()[id as int] == NotifyState::Notified
            && before.states()[id as int] != NotifyState::Dropped),
        forall|n: int|
            0 <= n < before.states().len() && before.states()[n] != after.states()[n] ==> (
            before.states()[n] != NotifyState::Dropped && after.states()[n]
                == NotifyState::Notified),
{
    lemma_skip_dropped_waiters(before.states(), before.waiting());
    let w = before.waiting();
    let rest = skip_dropped_waiters(before.states(), w);
    let j = choose|j: int|
        0 <= j <= w.len() && rest == w.skip(j) && forall|i: int|
            0 <= i < j ==> before.states()[#[trigger] w[i] as int] == NotifyState::Dropped;
    let k = w.index_of(id);
    assert(w[k] == id);
    if k < j {
        assert(before.states()[w[k] as int] == NotifyState::Dropped);
    }
    assert(rest[k - j] == id);
    if k > j {
        assert(after.waiting()[k - j - 1] == id);
    }
}

/// How many of `states` are notified.
pub open spec fn count_notified(states: Seq<NotifyState>) -> nat
    decreases states.len(),
{
    if states.len() == 0 {
        0
    } else {
        count_notified(states.drop_last()) + if states.last() == NotifyState::Notified {
            1nat
        } else {
            0nat
        }
    }
}

/// Notifying one future that was not notified adds one to the count of
/// notified futures.
pub proof fn lemma_count_notified_update(states: Seq<NotifyState>, id: int)
    requires
        0 <= id < states.len(),
        states[id] != NotifyState::Notified,
    ensures
        count_notified(states.update(id, NotifyState::Notified)) == count_notified(states) + 1,
    decreases states.len(),
{
    let updated = states.update(id, NotifyState::Notified);
    if id == states.len() - 1 {
        assert(updated.drop_last() =~= states.drop_last());
    } else {
        assert(updated.drop_last() =~= states.drop_last().update(id, NotifyState::Notified));
        lemma_count_notified_update(states.drop_last(), id);
    }
}

/// Every notification is delivered exactly once: `notify_one` either
/// notifies one pending future or keeps the notification, so the number of
/// notified futures plus the number of kept notifications grows by one.
/// (When the waiter it reaches belongs to a future that was already
/// notified, which happens when a pending future was polled more than once,
/// the notification is spent on it again and the count does not grow; the
/// law leaves that case out.)
pub proof fn lemma_notify_one_delivers_once(before: Notify, after: Notify, woken: Option<Waker>)
    requires
        before.wf(),
        Notify::notified_one(before, after, woken),
        skip_dropped_waiters(before.states(), before.waiting()).len() > 0 ==> before.states()[skip_dropped_waiters(
            before.states(),
            before.waiting(),
        )[0] as int] == NotifyState::Pending,
    ensures
        count_notified(after.states()) + after.pending_notify() == count_notified(before.states())
            + before.pending_notify() + 1,
{
    lemma_skip_dropped_waiters(before.states(), before.waiting());
    let rest = skip_dropped_waiters(before.states(), before.waiting());
    if rest.len() > 0 {
        let j = choose|j: int|
            0 <= j <= before.waiting().len() && rest == before.waiting().skip(j) && forall|i: int|
                0 <= i < j ==> before.states()[#[trigger] before.waiting()[i] as int]
                    == NotifyState::Dropped;
        assert(rest[0] == before.waiting()[j]);
        lemma_count_notified_update(before.states(), rest[0] as int);
    }
}

/// A pending future that takes a kept notification moves it, without
/// creating or losing one: the number of notified futures plus the number
/// of kept notifications stays the same.
pub proof fn lemma_poll_moves_notification(states: Seq<NotifyState>, pending: nat, id: int)
    requires
        0 <= id < states.len(),
        states[id] == NotifyState::Pending,
        pending > 0,
    ensures
        count_notified(states.update(id, NotifyState::Notified)) + (pending - 1) == count_notified(
            states,
        ) + pending,
{
    lemma_count_notified_update(states, id);
}

} // verus!
