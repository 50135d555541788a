use crate::poll::Poll;
use vstd::prelude::*;

verus! {

/// A collection of futures, backed by a vector, that yields their outputs
/// in the order in which they complete.
///
/// This is useful if you know the number of futures you want to collect
/// ahead of time.
pub struct VecFuturesUnordered<F>(Vec<F>);

/// What a yielding poll leaves: the futures before `k` were polled and
/// stayed pending, the future at `k` was polled and gave `output`, and it
/// was removed, the last future taking its place.
pub open spec fn yielded_at<F, O, P: FnMut(F) -> (F, Option<O>)>(
    poll: P,
    before: Seq<F>,
    after: Seq<F>,
    k: int,
    output: O,
) -> bool {
    &&& 0 <= k < before.len()
    &&& after.len() == before.len() - 1
    &&& forall|j: int|
        0 <= j < k ==> call_ensures(poll, (before[j],), (#[trigger] after[j], None::<O>))
    &&& exists|f: F| #[trigger] call_ensures(poll, (before[k],), (f, Some(output)))
    &&& k < before.len() - 1 ==> after[k] == before.last()
    &&& forall|j: int| k < j < before.len() - 1 ==> #[trigger] after[j] == before[j]
}

/// A poll that yields an output removes only the future that became
/// ready: the collection holds one future fewer, and every future after it,
/// which the poll did not reach, is still held, at or after its position.
pub proof fn lemma_yield_removes_only_the_ready_future<F, O, P: FnMut(F) -> (F, Option<O>)>(
    poll: P,
    before: Seq<F>,
    after: Seq<F>,
    k: int,
    output: O,
)
    requires
        yielded_at(poll, before, after, k, output),
    ensures
        after.len() + 1 == before.len(),
        forall|j: int|
            k < j < before.len() ==> exists|i: int| k <= i < after.len() && after[i] == #[trigger] before[j],
{
    assert forall|j: int| k < j < before.len() implies exists|i: int| k <= i < after.len() && after[i]
        == #[trigger] before[j] by {
        if j == before.len() - 1 {
            assert(after[k] == before[j]);
        } else {
            assert(after[j] == before[j]);
        }
    }
}

impl<F> View for VecFuturesUnordered<F> {
    type V = Seq<F>;

    /// The futures, in the order in which they are polled.
    closed spec fn view(&self) -> Seq<F> {
        self.0@
    }
}

impl<F> VecFuturesUnordered<F> {
    /// An empty collection with room for `capacity` futures.
    pub fn with_capacity(capacity: usize) -> (futures: Self)
        ensures
            futures@ == Seq::<F>::empty(),
    {
        VecFuturesUnordered(Vec::with_capacity(capacity))
    }

    /// Whether the collection holds no future.
    pub fn is_empty(&self) -> (empty: bool)
        ensures
            empty == (self@.len() == 0),
    {
        self.0.is_empty()
    }

    /// How many futures the collection holds.
    pub fn len(&self) -> (len: usize)
        ensures
            len == self@.len(),
    {
        self.0.len()
    }

    /// The bounds on how many outputs are left: exactly the number of
    /// futures.
    pub fn size_hint(&self) -> (hint: (usize, Option<usize>))
        ensures
            hint == (self@.len() as usize, Some(self@.len() as usize)),
    {
        let len = self.len();
        (len, Some(len))
    }

    /// Adds a future after the others.
    pub fn push(&mut self, future: F)
        ensures
            final(self)@ == old(self)@.push(future),
    {
        self.0.push(future);
    }

    /// Polls the futures in order with `poll`, which takes a future, polls
    /// it and gives it back with its output if it is ready. The first one
    /// that is ready is removed (the last future takes its place) and its
    /// output is yielded; the futures after it are not polled. An empty
    /// collection yields the end of the stream.
    pub fn poll_next<O, P>(&mut self, poll: &mut P) -> (next: Poll<Option<O>>)
        where
            P: FnMut(F) -> (F, Option<O>),
        requires
            forall|f: F| call_requires(*old(poll), (f,)),
        ensures
            (next == Poll::<Option<O>>::Ready(None)) <==> old(self)@.len() == 0,
            old(self)@.len() == 0 ==> final(self)@ == old(self)@,
            next is Pending ==> {
                &&& old(self)@.len() > 0
                &&& final(self)@.len() == old(self)@.len()
                &&& forall|j: int| 0 <= j < old(self)@.len() ==> call_ensures(
                    *old(poll), (old(self)@[j],), (#[trigger] final(self)@[j], None::<O>))
            },
            next matches Poll::Ready(Some(output)) ==> exists|k: int|
                yielded_at(*old(poll), old(self)@, final(self)@, k, output),
            next matches Poll::Ready(Some(_)) ==> final(self)@.len() + 1 == old(self)@.len(),
    {
        let len = self.0.len();
        if len == 0 {
            return Poll::Ready(None);
        }
        let mut i: usize = 0;
        while i < len
            invariant
                0 <= i <= len,
                len == old(self)@.len(),
                self.0@.len() == len,
                *poll == *old(poll),
                forall|f: F| call_requires(*poll, (f,)),
                forall|j: int| 0 <= j < i ==> call_ensures(
                    *old(poll), (old(self)@[j],), (#[trigger] self.0@[j], None::<O>)),
                forall|j: int| i <= j < len ==> #[trigger] self.0@[j] == old(self)@[j],
            decreases len - i,
        {
            let ghost before = self.0@;
            // move the future out (the last one takes its place), poll it
            let future = self.0.swap_remove(i);
            let (future, output) = poll(future);
            match output {
                Some(output) => {
                    proof {
                        let k = i as int;
                        assert(call_ensures(*old(poll), (old(self)@[k],), (future, Some(output))));
                        assert forall|j: int| 0 <= j < k implies call_ensures(
                            *old(poll), (old(self)@[j],), (#[trigger] self.0@[j], None::<O>)) by {
                            assert(self.0@[j] == before[j]);
                        }
                        assert forall|j: int| k < j < len - 1 implies #[trigger] self.0@[j]
                            == old(self)@[j] by {
                            assert(self.0@[j] == before[j]);
                        }
                        assert(yielded_at(*old(poll), old(self)@, self.0@, k, output));
                    }
                    return Poll::Ready(Some(output));
                },
                None => {
                    // put it back where it was, and the last one back last
                    self.0.push(future);
                    if i < len - 1 {
                        let last = self.0.swap_remove(i);
                        self.0.push(last);
                    }
                    proof {
                        assert(self.0@ =~= before.update(i as int, future));
                    }
                },
            }
            i = i + 1;
        }
        Poll::Pending
    }
}

} // verus!
