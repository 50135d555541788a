//! An unbounded channel between one sender and one receiver.

pub mod chunked_queue;

use crate::poll::Poll;
use crate::waker::UnsyncWaker;
use std::collections::VecDeque;
use std::marker::PhantomData;
use std::task::Waker;
use vstd::prelude::*;

verus! {

/// The value that could not be sent because the receiver was dropped.
#[derive(Debug)]
pub struct SendError<T>(pub T);

/// The state that the two ends of a channel share: the values sent and not
/// yet received, the waker of the receiving task, and whether either end
/// was dropped.
pub struct Shared<T> {
    queue: VecDeque<T>,
    waker: UnsyncWaker,
    closed: bool,
}

impl<T> Shared<T> {
    /// The values sent and not yet received, oldest first.
    pub closed spec fn queue(&self) -> Seq<T> {
        self.queue@
    }

    /// Whether either end was dropped.
    pub closed spec fn is_closed(&self) -> bool {
        self.closed
    }

    /// The waker that the receiving task registered, if any.
    pub closed spec fn waker(&self) -> Option<Waker> {
        self.waker@
    }

    /// Whether a receiving task waits to be woken.
    pub open spec fn has_waker(&self) -> bool {
        self.waker() is Some
    }
}

/// What sending `value` does: on a closed channel it comes back in the
/// error and nothing changes; otherwise it joins the back of the queue and
/// the waker that the receiving task registered, if any, comes out of the
/// slot to be woken.
pub open spec fn sent<T>(
    before: Shared<T>,
    after: Shared<T>,
    value: T,
    result: Result<Option<Waker>, SendError<T>>,
) -> bool {
    &&& before.is_closed() ==> result == Err::<Option<Waker>, SendError<T>>(SendError(value))
        && after == before
    &&& !before.is_closed() ==> {
        &&& result == Ok::<Option<Waker>, SendError<T>>(before.waker())
        &&& after.queue() == before.queue().push(value)
        &&& !after.is_closed()
        &&& !after.has_waker()
    }
}

/// What polling for a value does: the oldest queued value comes out;
/// else a closed channel gives the end (`None`); else the receiving task
/// registers its waker and the poll is pending.
pub open spec fn received<T>(before: Shared<T>, after: Shared<T>, result: Poll<Option<T>>) -> bool {
    &&& before.queue().len() > 0 ==> {
        &&& result == Poll::Ready(Some(before.queue()[0]))
        &&& after.queue() == before.queue().drop_first()
        &&& after.is_closed() == before.is_closed()
        &&& after.waker() == before.waker()
    }
    &&& before.queue().len() == 0 && before.is_closed() ==> {
        &&& result == Poll::<Option<T>>::Ready(None)
        &&& after.queue() == before.queue()
        &&& after.is_closed()
        &&& after.waker() == before.waker()
    }
    &&& before.queue().len() == 0 && !before.is_closed() ==> {
        &&& result == Poll::<Option<T>>::Pending
        &&& after.queue() == before.queue()
        &&& !after.is_closed()
        &&& after.has_waker()
    }
}

/// What dropping an end does: the channel closes and keeps its queue.
pub open spec fn closed<T>(before: Shared<T>, after: Shared<T>) -> bool {
    &&& after.queue() == before.queue()
    &&& after.is_closed()
}

/// The sending end of a channel.
pub struct Sender<T> {
    marker: PhantomData<T>,
}

/// The receiving end of a channel.
pub struct Receiver<T> {
    marker: PhantomData<T>,
}

/// Makes an unbounded channel: its two ends, and the state that they share
/// and that each operation on an end takes.
pub fn unbounded_channel<T>() -> (channel: (Sender<T>, Receiver<T>, Shared<T>))
    ensures
        channel.2.queue() == Seq::<T>::empty(),
        !channel.2.is_closed(),
        !channel.2.has_waker(),
{
    let shared = Shared { queue: VecDeque::new(), waker: UnsyncWaker::default(), closed: false };
    (Sender { marker: PhantomData }, Receiver { marker: PhantomData }, shared)
}

impl<T> Sender<T> {
    /// Sends `value`: it is queued and the waker of the receiving task,
    /// if one is registered, is handed back to be woken, unless the channel
    /// is closed, in which case the value comes back in the error.
    pub fn send(&self, shared: &mut Shared<T>, value: T) -> (result: Result<
        Option<Waker>,
        SendError<T>,
    >)
        ensures
            sent(*old(shared), *final(shared), value, result),
    {
        if shared.closed {
            return Err(SendError(value));
        }
        shared.queue.push_back(value);
        Ok(shared.waker.wake())
    }

    /// Drops the sender: the channel closes and the waker of the receiving
    /// task, if one is registered, is handed back to be woken, so that the
    /// task sees the end once the queue is drained.
    pub fn drop(self, shared: &mut Shared<T>) -> (woken: Option<Waker>)
        ensures
            closed(*old(shared), *final(shared)),
            woken == old(shared).waker(),
            !final(shared).has_waker(),
    {
        shared.closed = true;
        shared.waker.wake()
    }
}

impl<T> Receiver<T> {
    /// Polls for the next value: the oldest queued value; else, on a closed
    /// channel, `None`; else the waker of the polling task is registered and
    /// the poll is pending: `waker` takes the place of a registered waker,
    /// unless that one already wakes the same task.
    pub fn poll_recv(&mut self, shared: &mut Shared<T>, waker: Waker) -> (result: Poll<Option<T>>)
        ensures
            received(*old(shared), *final(shared), result),
            result is Pending ==> final(shared).waker() == old(shared).waker() || final(shared).waker() == Some(waker),
            result is Pending && old(shared).waker() is None ==> final(shared).waker() == Some(
                waker,
            ),
    {
        if let Some(value) = shared.queue.pop_front() {
            Poll::Ready(Some(value))
        } else if shared.closed {
            Poll::Ready(None)
        } else {
            shared.waker.register(waker);
            Poll::Pending
        }
    }

    /// Drops the receiver: the channel closes, so later sends fail.
    pub fn drop(self, shared: &mut Shared<T>)
        ensures
            closed(*old(shared), *final(shared)),
            final(shared).waker() == old(shared).waker(),
    {
        shared.closed = true;
    }
}

/// What is sent is received: on an open channel with nothing queued, a
/// value that is sent is what the next poll receives.
pub proof fn lemma_send_then_receive<T>(
    s0: Shared<T>,
    s1: Shared<T>,
    s2: Shared<T>,
    value: T,
    sent_result: Result<Option<Waker>, SendError<T>>,
    received_result: Poll<Option<T>>,
)
    requires
        !s0.is_closed(),
        s0.queue().len() == 0,
        sent(s0, s1, value, sent_result),
        received(s1, s2, received_result),
    ensures
        sent_result is Ok,
        received_result == Poll::Ready(Some(value)),
        s2.queue().len() == 0,
{
    assert(s1.queue() =~= seq![value]);
    assert(s1.queue().drop_first() =~= Seq::<T>::empty());
}

/// Values are received in the order in which they were sent: a run of
/// sends on an open channel, `states[i]` to `states[i + 1]` sending
/// `values[i]`, all succeed and leave the values behind those queued
/// before them, in the order in which they were sent.
pub proof fn lemma_received_in_send_order<T>(
    states: Seq<Shared<T>>,
    values: Seq<T>,
    results: Seq<Result<Option<Waker>, SendError<T>>>,
)
    requires
        states.len() == values.len() + 1,
        results.len() == values.len(),
        !states[0].is_closed(),
        forall|i: int|
            0 <= i < values.len() ==> #[trigger] sent(
                states[i],
                states[i + 1],
                values[i],
                results[i],
            ),
    ensures
        states.last().queue() == states[0].queue() + values,
        !states.last().is_closed(),
        forall|i: int| 0 <= i < results.len() ==> #[trigger] results[i] is Ok,
    decreases values.len(),
{
    if values.len() > 0 {
        let n = values.len() - 1;
        let front = states.take(n + 1);
        assert forall|i: int| 0 <= i < n implies #[trigger] sent(
            front[i],
            front[i + 1],
            values.take(n)[i],
            results.take(n)[i],
        ) by {
            assert(sent(states[i], states[i + 1], values[i], results[i]));
        }
        lemma_received_in_send_order(front, values.take(n), results.take(n));
        assert(sent(states[n], states[n + 1], values[n], results[n]));
        assert(front.last() == states[n]);
        assert(values =~= values.take(n).push(values[n]));
        assert(states[0].queue() + values =~= (states[0].queue() + values.take(n)).push(
            values[n],
        ));
        assert forall|i: int| 0 <= i < results.len() implies #[trigger] results[i] is Ok by {
            if i < n {
                assert(results.take(n)[i] is Ok);
            }
        }
    }
}

/// Queued values come out one per poll, oldest first: a run of polls,
/// `states[i]` to `states[i + 1]` giving `results[i]`, no longer than the
/// queue it starts from, receives the queued values in order and leaves
/// the rest queued.
pub proof fn lemma_receives_in_queue_order<T>(
    states: Seq<Shared<T>>,
    results: Seq<Poll<Option<T>>>,
)
    requires
        states.len() == results.len() + 1,
        results.len() <= states[0].queue().len(),
        forall|i: int|
            0 <= i < results.len() ==> #[trigger] received(states[i], states[i + 1], results[i]),
    ensures
        forall|i: int|
            0 <= i < results.len() ==> #[trigger] results[i] == Poll::Ready(
                Some(states[0].queue()[i]),
            ),
        states.last().queue() == states[0].queue().skip(results.len() as int),
        states.last().is_closed() == states[0].is_closed(),
    decreases results.len(),
{
    let q = states[0].queue();
    if results.len() == 0 {
        assert(q.skip(0) =~= q);
    } else {
        let n = results.len() - 1;
        let front = states.drop_last();
        let first_results = results.drop_last();
        assert forall|i: int| 0 <= i < first_results.len() implies #[trigger] received(
            front[i],
            front[i + 1],
            first_results[i],
        ) by {
            assert(received(states[i], states[i + 1], results[i]));
        }
        lemma_receives_in_queue_order(front, first_results);
        assert(front.last() == states[n]);
        assert(received(states[n], states[n + 1], results[n]));
        assert(states[n].queue() == q.skip(n));
        assert(q.skip(n)[0] == q[n]);
        assert(q.skip(n).drop_first() =~= q.skip(n + 1));
        assert forall|i: int| 0 <= i < results.len() implies #[trigger] results[i] == Poll::Ready(
            Some(q[i]),
        ) by {
            if i < n {
                assert(first_results[i] == Poll::Ready(Some(q[i])));
            }
        }
    }
}

/// What is sent is received, each value once and in the order in which it
/// was sent: on an open channel with nothing queued, a run of sends of
/// `values` followed by as many polls receives exactly `values`, in order;
/// the channel is then open and drained, so the next poll is pending
/// until another send or the sender's drop.
pub proof fn lemma_receives_in_send_order<T>(
    sends: Seq<Shared<T>>,
    values: Seq<T>,
    send_results: Seq<Result<Option<Waker>, SendError<T>>>,
    receives: Seq<Shared<T>>,
    receive_results: Seq<Poll<Option<T>>>,
)
    requires
        sends.len() == values.len() + 1,
        send_results.len() == values.len(),
        !sends[0].is_closed(),
        sends[0].queue().len() == 0,
        forall|i: int|
            0 <= i < values.len() ==> #[trigger] sent(
                sends[i],
                sends[i + 1],
                values[i],
                send_results[i],
            ),
        receives.len() == values.len() + 1,
        receive_results.len() == values.len(),
        receives[0] == sends.last(),
        forall|i: int|
            0 <= i < values.len() ==> #[trigger] received(
                receives[i],
                receives[i + 1],
                receive_results[i],
            ),
    ensures
        forall|i: int|
            0 <= i < values.len() ==> #[trigger] receive_results[i] == Poll::Ready(Some(values[i])),
        receives.last().queue().len() == 0,
        !receives.last().is_closed(),
        forall|after: Shared<T>, result: Poll<Option<T>>|
            #[trigger] received(receives.last(), after, result) ==> result
                == Poll::<Option<T>>::Pending,
{
    lemma_received_in_send_order(sends, values, send_results);
    assert(sends.last().queue() =~= values);
    lemma_receives_in_queue_order(receives, receive_results);
    assert(values.skip(values.len() as int).len() == 0);
}

/// Once the channel is closed and drained, every poll receives the end
/// and leaves the channel as it is.
pub proof fn lemma_drained_closed_channel_ends<T>(
    s0: Shared<T>,
    s1: Shared<T>,
    result: Poll<Option<T>>,
)
    requires
        s0.is_closed(),
        s0.queue().len() == 0,
        received(s0, s1, result),
    ensures
        result == Poll::<Option<T>>::Ready(None),
        s1.is_closed(),
        s1.queue().len() == 0,
{
}

/// A closed channel refuses every value: after either end is dropped,
/// sending gives the value back.
pub proof fn lemma_send_after_close_fails<T>(
    s0: Shared<T>,
    s1: Shared<T>,
    s2: Shared<T>,
    value: T,
    result: Result<Option<Waker>, SendError<T>>,
)
    requires
        closed(s0, s1),
        sent(s1, s2, value, result),
    ensures
        result == Err::<Option<Waker>, SendError<T>>(SendError(value)),
        s2.queue() == s0.queue(),
{
}

} // verus!
