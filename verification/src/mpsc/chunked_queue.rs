use std::collections::VecDeque;
use vstd::prelude::*;

verus! {

/// How many values one chunk holds.
pub const CHUNK_CAPACITY: usize = 1024;

/// The values of `chunks`, chunk after chunk, in order.
pub open spec fn flatten<T>(chunks: Seq<VecDeque<T>>) -> Seq<T>
    decreases chunks.len(),
{
    if chunks.len() == 0 {
        Seq::empty()
    } else {
        flatten(chunks.drop_last()) + chunks.last()@
    }
}

/// Flattening a sequence of chunks that starts with `first` gives the
/// values of `first` followed by those of the rest.
pub proof fn lemma_flatten_front<T>(chunks: Seq<VecDeque<T>>)
    requires
        chunks.len() > 0,
    ensures
        flatten(chunks) == chunks[0]@ + flatten(chunks.drop_first()),
    decreases chunks.len(),
{
    if chunks.len() == 1 {
        assert(chunks.drop_last() =~= Seq::empty());
        assert(chunks.drop_first() =~= Seq::empty());
        assert(flatten(chunks.drop_first()) == Seq::<T>::empty());
        assert(chunks[0]@ + Seq::<T>::empty() =~= chunks[0]@);
        assert(Seq::<T>::empty() + chunks.last()@ =~= chunks.last()@);
    } else {
        let rest = chunks.drop_last();
        lemma_flatten_front(rest);
        assert(rest.drop_first() =~= chunks.drop_first().drop_last());
        assert(chunks.drop_first().last() == chunks.last());
        assert(flatten(chunks.drop_first()) == flatten(rest.drop_first()) + chunks.last()@);
        assert(flatten(chunks) == flatten(rest) + chunks.last()@);
        assert(flatten(rest) == rest[0]@ + flatten(rest.drop_first()));
        assert(rest[0] == chunks[0]);
        assert((rest[0]@ + flatten(rest.drop_first())) + chunks.last()@ =~= rest[0]@ + (flatten(
            rest.drop_first(),
        ) + chunks.last()@));
    }
}

/// How a push changes the sizes of the chunks: the last chunk grows by one
/// while it has room; otherwise a new chunk with the one value is added.
pub open spec fn chunk_pushed(before: Seq<nat>, after: Seq<nat>) -> bool {
    if before.len() > 0 && before.last() < CHUNK_CAPACITY {
        after == before.update(before.len() - 1, before.last() + 1)
    } else {
        after == before.push(1)
    }
}

/// Chunks are allocated only as they fill: after `n` pushes into an empty
/// queue (`lens[i]` the chunk sizes after `i` of them) every chunk but the
/// last is full, so there are `ceil(n / CHUNK_CAPACITY)` chunks.
pub proof fn lemma_pushes_fill_chunks(lens: Seq<Seq<nat>>)
    requires
        lens.len() > 0,
        lens[0] == Seq::<nat>::empty(),
        forall|i: int| 0 <= i < lens.len() - 1 ==> #[trigger] chunk_pushed(lens[i], lens[i + 1]),
    ensures
        ({
            let n = lens.len() - 1;
            let last = lens.last();
            &&& last.len() == (n + CHUNK_CAPACITY - 1) / (CHUNK_CAPACITY as int)
            &&& forall|i: int| 0 <= i < last.len() - 1 ==> #[trigger] last[i] == CHUNK_CAPACITY
            &&& n > 0 ==> last.last() == n - CHUNK_CAPACITY * (last.len() - 1)
        }),
    decreases lens.len(),
{
    if lens.len() > 1 {
        let front = lens.drop_last();
        assert forall|i: int| 0 <= i < front.len() - 1 implies #[trigger] chunk_pushed(
            front[i],
            front[i + 1],
        ) by {
            assert(chunk_pushed(lens[i], lens[i + 1]));
        }
        lemma_pushes_fill_chunks(front);
        let n = lens.len() - 1;
        let before = front.last();
        let m = n - 1;
        assert(before == lens[m]);
        assert(chunk_pushed(lens[m], lens[m + 1]));
        let after = lens.last();
        assert(after == lens[m + 1]);
        if n == 1 {
            assert(before.len() == 0);
            assert(after =~= seq![1nat]);
        } else {
            let k = before.len();
            assert(k == (n - 1 + 1023) / 1024);
            assert(k > 0);
            if before.last() < CHUNK_CAPACITY {
                assert(after.len() == k);
                assert(n - 1 == 1024 * (k - 1) + before.last());
                assert((n + 1023) / 1024 == k);
                assert forall|i: int| 0 <= i < after.len() - 1 implies #[trigger] after[i]
                    == CHUNK_CAPACITY by {
                    assert(after[i] == before[i]);
                }
            } else {
                assert(after.len() == k + 1);
                assert(n - 1 == 1024 * k);
                assert((n + 1023) / 1024 == k + 1);
                assert forall|i: int| 0 <= i < after.len() - 1 implies #[trigger] after[i]
                    == CHUNK_CAPACITY by {
                    if i < k - 1 {
                        assert(after[i] == before[i]);
                    }
                }
            }
        }
    }
}

/// A queue that stores values in fixed-size chunks, to reduce allocations.
pub struct ChunkedQueue<T> {
    chunks: VecDeque<VecDeque<T>>,
}

impl<T> View for ChunkedQueue<T> {
    type V = Seq<T>;

    /// The queued values, front first.
    closed spec fn view(&self) -> Seq<T> {
        flatten(self.chunks@)
    }
}

impl<T> ChunkedQueue<T> {
    /// How many values each chunk holds, front chunk first.
    pub closed spec fn chunk_lens(&self) -> Seq<nat> {
        self.chunks@.map_values(|chunk: VecDeque<T>| chunk@.len())
    }

    /// No chunk is over capacity, and every chunk holds a value unless it is
    /// the only one (so the first value of the queue is in the first chunk).
    /// The count of values fits in a `usize`.
    pub closed spec fn wf(&self) -> bool {
        &&& forall|i: int|
            0 <= i < self.chunks@.len() ==> #[trigger] self.chunks@[i]@.len() <= CHUNK_CAPACITY
        &&& forall|i: int|
            0 <= i < self.chunks@.len() && self.chunks@.len() > 1 ==> #[trigger] self.chunks@[i]@.len()
                > 0
        &&& self@.len() <= usize::MAX
    }
}

impl<T> Default for ChunkedQueue<T> {
    /// An empty queue.
    fn default() -> (queue: Self)
        ensures
            queue.wf(),
            queue@ == Seq::<T>::empty(),
            queue.chunk_lens() == Seq::<nat>::empty(),
    {
        ChunkedQueue { chunks: VecDeque::new() }
    }
}

impl<T> ChunkedQueue<T> {
    /// The number of queued values.
    pub fn len(&self) -> (len: usize)
        requires
            self.wf(),
        ensures
            len == self@.len(),
    {
        let n = self.chunks.len();
        let mut total: usize = 0;
        let mut i: usize = 0;
        while i < n
            invariant
                self.wf(),
                n == self.chunks@.len(),
                0 <= i <= n,
                total == flatten(self.chunks@.take(i as int)).len(),
            decreases n - i,
        {
            proof {
                let s = self.chunks@;
                assert(s.take(i + 1).drop_last() =~= s.take(i as int));
                assert(s.take(i + 1).last() == s[i as int]);
                lemma_flatten_prefix_len(s, i + 1);
                lemma_flatten_prefix_bounded(s, i + 1);
            }
            let chunk_len = self.chunks[i].len();
            total = total + chunk_len;
            i = i + 1;
        }
        proof {
            assert(self.chunks@.take(n as int) =~= self.chunks@);
        }
        total
    }

    /// Appends `value` at the back: into the last chunk while it has room,
    /// else into a new chunk, so a chunk is added only when there is none or
    /// the last one is full.
    pub fn push_back(&mut self, value: T)
        requires
            old(self).wf(),
            old(self)@.len() < usize::MAX,
        ensures
            final(self).wf(),
            final(self)@ == old(self)@.push(value),
            chunk_pushed(old(self).chunk_lens(), final(self).chunk_lens()),
    {
        let ghost old_chunks = self.chunks@;
        match self.chunks.pop_back() {
            Some(mut tail) => {
                if tail.len() < CHUNK_CAPACITY {
                    tail.push_back(value);
                    self.chunks.push_back(tail);
                    proof {
                        assert(self.chunks@.drop_last() =~= old_chunks.drop_last());
                        assert(self.chunks@.last()@ =~= old_chunks.last()@.push(value));
                        assert(self.chunk_lens() =~= old(self).chunk_lens().update(
                            old_chunks.len() - 1,
                            old_chunks.last()@.len() + 1,
                        ));
                        assert(flatten(old_chunks.drop_last()) + old_chunks.last()@.push(value)
                            =~= (flatten(old_chunks.drop_last()) + old_chunks.last()@).push(
                            value,
                        ));
                        assert forall|i: int| 0 <= i < self.chunks@.len() implies #[trigger] self.chunks@[i]@.len() <= CHUNK_CAPACITY && (self.chunks@.len() > 1 ==> self.chunks@[i]@.len() > 0) by {
                            if i < self.chunks@.len() - 1 {
                                assert(self.chunks@[i] == old_chunks[i]);
                            }
                        }
                    }
                    return ;
                }
                self.chunks.push_back(tail);
                proof {
                    assert(self.chunks@ =~= old_chunks);
                }
            },
            None => {
                proof {
                    assert(self.chunks@ =~= old_chunks);
                }
            },
        }
        let mut buffer: VecDeque<T> = VecDeque::with_capacity(CHUNK_CAPACITY);
        buffer.push_back(value);
        let ghost mid = self.chunks@;
        self.chunks.push_back(buffer);
        proof {
            assert(self.chunks@.drop_last() =~= mid);
            assert(buffer@ =~= seq![value]);
            assert(flatten(mid) + seq![value] =~= flatten(mid).push(value));
            assert(mid == old_chunks);
            assert(self.chunk_lens() =~= old(self).chunk_lens().push(1));
            assert forall|i: int| 0 <= i < self.chunks@.len() implies #[trigger] self.chunks@[i]@.len() <= CHUNK_CAPACITY && (self.chunks@.len() > 1 ==> self.chunks@[i]@.len() > 0) by {
                if i < self.chunks@.len() - 1 {
                    assert(self.chunks@[i] == mid[i]);
                    if mid.len() == 1 {
                        // the only old chunk was full, so it is not empty
                        assert(mid[0]@.len() == CHUNK_CAPACITY);
                    }
                }
            }
        }
    }

    /// Removes and returns the front value, or `None` when the queue is
    /// empty. A chunk that this empties is dropped unless it is the only one.
    pub fn pop_front(&mut self) -> (value: Option<T>)
        requires
            old(self).wf(),
        ensures
            final(self).wf(),
            old(self)@.len() == 0 ==> value is None && final(self)@ == old(self)@,
            old(self)@.len() > 0 ==> value == Some(old(self)@[0]) && final(self)@ == old(
                self,
            )@.drop_first(),
    {
        let ghost old_chunks = self.chunks@;
        let count = self.chunks.len();
        match self.chunks.pop_front() {
            Some(mut head) => {
                proof {
                    lemma_flatten_front(old_chunks);
                    assert(self.chunks@ =~= old_chunks.drop_first());
                }
                let value = head.pop_front();
                if value.is_some() && head.len() == 0 && count > 1 {
                    proof {
                        assert(head@ =~= Seq::<T>::empty());
                        assert(old_chunks[0]@ =~= seq![value->0]);
                        assert(Seq::<T>::empty() + flatten(self.chunks@) =~= flatten(self.chunks@));
                        assert(old_chunks[0]@ + flatten(self.chunks@) =~= seq![value->0] + flatten(self.chunks@));
                        assert((seq![value->0] + flatten(self.chunks@)).drop_first() =~= flatten(self.chunks@));
                        assert forall|i: int| 0 <= i < self.chunks@.len() implies #[trigger] self.chunks@[i]@.len() <= CHUNK_CAPACITY && (self.chunks@.len() > 1 ==> self.chunks@[i]@.len() > 0) by {
                            assert(self.chunks@[i] == old_chunks[i + 1]);
                        }
                    }
                    value
                } else {
                    let ghost rest = self.chunks@;
                    self.chunks.push_front(head);
                    proof {
                        assert(self.chunks@.drop_first() =~= rest);
                        lemma_flatten_front(self.chunks@);
                        if value is Some {
                            assert(old_chunks[0]@ =~= seq![value->0] + head@);
                            assert((seq![value->0] + head@ + flatten(rest)).drop_first() =~= head@
                                + flatten(rest));
                            assert(seq![value->0] + head@ + flatten(rest) =~= seq![value->0] + (
                            head@ + flatten(rest)));
                        } else {
                            assert(count == 1);
                            assert(rest.len() == 0);
                            assert(flatten(rest) =~= Seq::<T>::empty());
                            assert(head@ + Seq::<T>::empty() =~= head@);
                        }
                        assert forall|i: int| 0 <= i < self.chunks@.len() implies #[trigger] self.chunks@[i]@.len() <= CHUNK_CAPACITY && (self.chunks@.len() > 1 ==> self.chunks@[i]@.len() > 0) by {
                            if i > 0 {
                                assert(self.chunks@[i] == old_chunks[i]);
                            }
                        }
                    }
                    value
                }
            },
            None => {
                proof {
                    assert(old_chunks =~= Seq::<VecDeque<T>>::empty());
                }
                None
            },
        }
    }
}

/// The count of values in the first `k` chunks grows by the size of chunk
/// `k - 1` from `k - 1` chunks to `k`.
proof fn lemma_flatten_prefix_len<T>(chunks: Seq<VecDeque<T>>, k: int)
    requires
        0 < k <= chunks.len(),
    ensures
        flatten(chunks.take(k)).len() == flatten(chunks.take(k - 1)).len() + chunks[k - 1]@.len(),
{
    assert(chunks.take(k).drop_last() =~= chunks.take(k - 1));
    assert(chunks.take(k).last() == chunks[k - 1]);
}

/// The first `k` chunks hold no more values than all of them.
proof fn lemma_flatten_prefix_bounded<T>(chunks: Seq<VecDeque<T>>, k: int)
    requires
        0 <= k <= chunks.len(),
    ensures
        flatten(chunks.take(k)).len() <= flatten(chunks).len(),
    decreases chunks.len(),
{
    if k == chunks.len() {
        assert(chunks.take(k) =~= chunks);
    } else {
        let rest = chunks.drop_last();
        assert(rest.take(k) =~= chunks.take(k));
        lemma_flatten_prefix_bounded(rest, k);
    }
}

} // verus!
