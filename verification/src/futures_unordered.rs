use crate::poll::Poll;
use vstd::prelude::*;

verus! {

struct OneDirectionalLinkedListNode<F> {
    future: F,
    next: Option<Box<OneDirectionalLinkedListNode<F>>>,
}

/// The futures of a list, from `node` on.
spec fn list_view<F>(node: Option<Box<OneDirectionalLinkedListNode<F>>>) -> Seq<F>
    decreases node,
{
    match node {
        None => Seq::empty(),
        Some(n) => seq![n.future] + list_view(n.next),
    }
}

/// A collection of futures, kept in a linked list, that yields their
/// outputs in the order in which they complete.
pub struct FuturesUnordered<F> {
    len: usize,
    inner: Option<Box<OneDirectionalLinkedListNode<F>>>,
}

impl<F> View for FuturesUnordered<F> {
    type V = Seq<F>;

    /// The futures, in the order in which they are polled: the most
    /// recently pushed first.
    closed spec fn view(&self) -> Seq<F> {
        list_view(self.inner)
    }
}

/// What a yielding poll leaves: the futures before `k` were polled and
/// stayed pending, the future at `k` was polled, gave `output` and was
/// removed, and the futures after it were not polled.
pub open spec fn removed_at<F, O, P: FnMut(F) -> (F, Option<O>)>(
    poll: P,
    before: Seq<F>,
    after: Seq<F>,
    k: int,
    output: O,
) -> bool {
    &&& 0 <= k < before.len()
    &&& after.len() == before.len() - 1
    &&& forall|j: int|
        0 <= j < k ==> call_ensures(poll, (before[j],), (#[trigger] after[j], None::<O>))
    &&& exists|f: F| #[trigger] call_ensures(poll, (before[k],), (f, Some(output)))
    &&& forall|j: int| k <= j < after.len() ==> #[trigger] after[j] == before[j + 1]
}

/// A poll that yields an output removes exactly the future that became
/// ready: the collection holds one future fewer, the futures before it are
/// still there (as the poll left them), and the futures after it, which the
/// poll did not reach, follow them unchanged and in order.
pub proof fn lemma_yield_removes_only_the_ready_future<F, O, P: FnMut(F) -> (F, Option<O>)>(
    poll: P,
    before: Seq<F>,
    after: Seq<F>,
    k: int,
    output: O,
)
    requires
        removed_at(poll, before, after, k, output),
    ensures
        after.len() + 1 == before.len(),
        after.skip(k) == before.skip(k + 1),
{
    assert(after.skip(k) =~= before.skip(k + 1));
}

impl<F> FuturesUnordered<F> {
    /// The count kept beside the list is the length of the list.
    pub closed spec fn wf(&self) -> bool {
        self.len == self@.len()
    }

    /// An empty collection.
    pub fn new() -> (futures: Self)
        ensures
            futures.wf(),
            futures@ == Seq::<F>::empty(),
    {
        FuturesUnordered { len: 0, inner: None }
    }

    /// Whether the collection holds no future.
    pub fn is_empty(&self) -> (empty: bool)
        ensures
            empty == (self@.len() == 0),
    {
        self.inner.is_none()
    }

    /// How many futures the collection holds.
    pub fn len(&self) -> (len: usize)
        requires
            self.wf(),
        ensures
            len == self@.len(),
    {
        self.len
    }

    /// Adds a future, ahead of the others.
    pub fn push(&mut self, future: F)
        requires
            old(self).wf(),
            old(self)@.len() < usize::MAX,
        ensures
            final(self).wf(),
            final(self)@ == seq![future] + old(self)@,
    {
        let past = self.inner.take();
        self.inner = Some(Box::new(OneDirectionalLinkedListNode { future, next: past }));
        self.len = self.len + 1;
    }
}

impl<F> FuturesUnordered<F> {
    /// Polls the futures in list order with `poll`, which takes a future,
    /// polls it and gives it back with its output if it is ready. The
    /// first one that is ready is unlinked and its output yielded; the
    /// futures after it are not polled. An empty collection yields the end
    /// of the stream.
    pub fn poll_next<O, P>(&mut self, poll: &mut P) -> (next: Poll<Option<O>>)
        where
            P: FnMut(F) -> (F, Option<O>),
        requires
            old(self).wf(),
            forall|f: F| call_requires(*old(poll), (f,)),
        ensures
            final(self).wf(),
            (next == Poll::<Option<O>>::Ready(None)) <==> old(self)@.len() == 0,
            old(self)@.len() == 0 ==> final(self)@ == old(self)@,
            next is Pending ==> {
                &&& old(self)@.len() > 0
                &&& final(self)@.len() == old(self)@.len()
                &&& forall|j: int| 0 <= j < old(self)@.len() ==> call_ensures(
                    *old(poll), (old(self)@[j],), (#[trigger] final(self)@[j], None::<O>))
            },
            next matches Poll::Ready(Some(output)) ==> exists|k: int|
                removed_at(*old(poll), old(self)@, final(self)@, k, output),
            next matches Poll::Ready(Some(_)) ==> final(self)@.len() + 1 == old(self)@.len(),
    {
        if self.inner.is_none() {
            return Poll::Ready(None);
        }
        let ghost futures = self@;
        let mut polled: Vec<F> = Vec::new();
        let mut current = self.inner.take();
        let mut found: Option<O> = None;
        loop
            invariant_except_break
                found is None,
                list_view(current) == futures.skip(polled@.len() as int),
            invariant
                futures == old(self)@,
                *poll == *old(poll),
                forall|f: F| call_requires(*poll, (f,)),
                polled@.len() <= futures.len(),
                forall|j: int| 0 <= j < polled@.len() ==> call_ensures(
                    *old(poll), (futures[j],), (#[trigger] polled@[j], None::<O>)),
            ensures
                found is None ==> current is None && polled@.len() == futures.len(),
                found matches Some(output) ==> {
                    &&& polled@.len() < futures.len()
                    &&& exists|f: F| #[trigger] call_ensures(
                        *old(poll), (futures[polled@.len() as int],), (f, Some(output)))
                    &&& list_view(current) == futures.skip(polled@.len() as int + 1)
                },
            decreases list_view(current).len(),
        {
            match current {
                None => {
                    proof {
                        assert(futures.skip(polled@.len() as int).len() == 0);
                    }
                    break;
                },
                Some(node) => {
                    let ghost at = polled@.len() as int;
                    let OneDirectionalLinkedListNode { future, next } = *node;
                    proof {
                        assert(futures.skip(at)[0] == futures[at]);
                        assert(futures.skip(at).drop_first() =~= futures.skip(at + 1));
                    }
                    let (future, output) = poll(future);
                    current = next;
                    match output {
                        Some(output) => {
                            found = Some(output);
                            break;
                        },
                        None => {
                            polled.push(future);
                        },
                    }
                },
            }
        }
        // link the polled futures back in front of the rest, in order
        let ghost rest = list_view(current);
        let ghost all_polled = polled@;
        let mut list = current;
        while polled.len() > 0
            invariant
                polled@ == all_polled.take(polled@.len() as int),
                polled@.len() <= all_polled.len(),
                list_view(list) == all_polled.skip(polled@.len() as int) + rest,
            decreases polled@.len(),
        {
            let ghost before = polled@;
            let future = polled.pop().unwrap();
            list = Some(Box::new(OneDirectionalLinkedListNode { future, next: list }));
            proof {
                let n = polled@.len() as int;
                assert(polled@ =~= all_polled.take(n));
                assert(future == all_polled[n]);
                assert(seq![future] + (all_polled.skip(n + 1) + rest) =~= all_polled.skip(n) + rest);
            }
        }
        self.inner = list;
        proof {
            assert(all_polled.skip(0) =~= all_polled);
        }
        match found {
            Some(output) => {
                self.len = self.len - 1;
                proof {
                    let k = all_polled.len() as int;
                    let after = self@;
                    assert(after =~= all_polled + futures.skip(k + 1));
                    assert forall|j: int| k <= j < after.len() implies #[trigger] after[j]
                        == futures[j + 1] by {
                        assert(after[j] == futures.skip(k + 1)[j - k]);
                    }
                    assert forall|j: int| 0 <= j < k implies call_ensures(
                        *old(poll), (futures[j],), (#[trigger] after[j], None::<O>)) by {
                        assert(after[j] == all_polled[j]);
                    }
                    assert(removed_at(*old(poll), old(self)@, self@, k, output));
                }
                Poll::Ready(Some(output))
            },
            None => {
                proof {
                    assert(rest =~= Seq::<F>::empty());
                    assert(self@ =~= all_polled);
                }
                Poll::Pending
            },
        }
    }
}

impl<F> FuturesUnordered<F> {
    /// Collects `futures`, pushing them one after the other, so that the
    /// last one is polled first.
    pub fn from_iter(futures: Vec<F>) -> (collected: Self)
        ensures
            collected.wf(),
            collected@ == futures@.reverse(),
    {
        let ghost all = futures@;
        let mut futures = futures;
        // turn the futures around, so that popping yields them in order
        let mut reversed: Vec<F> = Vec::new();
        while futures.len() > 0
            invariant
                futures@.len() <= all.len(),
                futures@ == all.take(futures@.len() as int),
                reversed@ == all.skip(futures@.len() as int).reverse(),
            decreases futures@.len(),
        {
            let ghost n = futures@.len() as int;
            let ghost prev = futures@;
            let future = futures.pop().unwrap();
            reversed.push(future);
            proof {
                assert(prev == all.take(n));
                assert(futures@ == prev.subrange(0, n - 1));
                assert(future == prev[n - 1]);
                assert(futures@ =~= all.take(n - 1));
                assert(all.skip(n - 1).reverse() =~= all.skip(n).reverse().push(all[n - 1]));
            }
        }
        proof {
            assert(all.skip(0) =~= all);
        }
        let ghost order = reversed@;
        assert(order.len() == reversed.len());
        let mut collected = Self::new();
        while reversed.len() > 0
            invariant
                collected.wf(),
                order == all.reverse(),
                reversed@.len() <= order.len(),
                order.len() <= usize::MAX,
                reversed@ == order.take(reversed@.len() as int),
                collected@ == order.skip(reversed@.len() as int),
            decreases reversed@.len(),
        {
            let ghost n = reversed@.len() as int;
            let future = reversed.pop().unwrap();
            proof {
                assert(reversed@ =~= order.take(n - 1));
                assert(seq![future] + order.skip(n) =~= order.skip(n - 1));
            }
            collected.push(future);
        }
        proof {
            assert(order.skip(0) =~= order);
        }
        collected
    }

    /// The bounds on how many outputs are left: exactly the number of
    /// futures.
    pub fn size_hint(&self) -> (hint: (usize, Option<usize>))
        requires
            self.wf(),
        ensures
            hint == (self@.len() as usize, Some(self@.len() as usize)),
    {
        let len = self.len();
        (len, Some(len))
    }
}

impl<F> Default for FuturesUnordered<F> {
    /// An empty collection.
    fn default() -> (futures: Self)
        ensures
            futures.wf(),
            futures@ == Seq::<F>::empty(),
    {
        Self::new()
    }
}

} // verus!
