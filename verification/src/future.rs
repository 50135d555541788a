use crate::poll::Poll;
use vstd::pervasive::strictly_cloned;
use vstd::prelude::*;

verus! {

/// Where a shared future stands: still running, or finished with its
/// output.
pub enum FutureOrResult<F, T> {
    /// The future has not completed yet.
    Future(F),
    /// The future completed with this output.
    Result(T),
}

/// A future whose output can be awaited multiple times: once the inner
/// future completes, every later poll gives a clone of its output.
pub struct SharedLocal<F, T> {
    inner: Option<FutureOrResult<F, T>>,
}

impl<F, T> SharedLocal<F, T> {
    /// Where the shared future stands.
    pub closed spec fn state(&self) -> FutureOrResult<F, T> {
        self.inner->0
    }

    /// The state is always present (it is only taken out during a poll).
    pub closed spec fn wf(&self) -> bool {
        self.inner is Some
    }

    /// Shares `future`.
    pub fn new(future: F) -> (shared: Self)
        ensures
            shared.wf(),
            shared.state() == FutureOrResult::<F, T>::Future(future),
    {
        SharedLocal { inner: Some(FutureOrResult::Future(future)) }
    }

    /// The output, once the shared future has completed.
    pub fn finished_output(&self) -> (output: Option<&T>)
        requires
            self.wf(),
        ensures
            self.state() matches FutureOrResult::Result(r) ==> output == Some(&r),
            self.state() is Future ==> output is None,
    {
        match &self.inner {
            Some(FutureOrResult::Result(output)) => Some(output),
            _ => None,
        }
    }
}

impl<F, T: Clone> SharedLocal<F, T> {
    /// Polls the shared future. A finished one gives a clone of its output.
    /// A running one is polled with `poll`, which takes the future, polls it
    /// and gives it back with its output if it is ready; when it is, a
    /// clone of the output is kept and the output is given.
    pub fn poll<P>(&mut self, poll: &mut P) -> (polled: Poll<T>)
        where
            P: FnMut(F) -> (F, Option<T>),
        requires
            old(self).wf(),
            forall|f: F| call_requires(*old(poll), (f,)),
        ensures
            final(self).wf(),
            old(self).state() matches FutureOrResult::Result(output) ==> {
                &&& polled matches Poll::Ready(copy) && strictly_cloned(output, copy)
                &&& final(self).state() == old(self).state()
            },
            old(self).state() matches FutureOrResult::Future(future) ==> {
                &&& polled matches Poll::Ready(output) ==> {
                    &&& exists|f: F| #[trigger] call_ensures(*old(poll), (future,), (f, Some(output)))
                    &&& final(self).state() matches FutureOrResult::Result(kept)
                        && strictly_cloned(output, kept)
                }
                &&& polled is Pending ==> (final(self).state() matches FutureOrResult::Future(after)
                    && call_ensures(*old(poll), (future,), (after, None::<T>)))
            },
    {
        match self.inner.take() {
            Some(FutureOrResult::Future(future)) => {
                let (future, output) = poll(future);
                match output {
                    Some(output) => {
                        let kept = output.clone();
                        self.inner = Some(FutureOrResult::Result(kept));
                        Poll::Ready(output)
                    },
                    None => {
                        self.inner = Some(FutureOrResult::Future(future));
                        Poll::Pending
                    },
                }
            },
            Some(FutureOrResult::Result(output)) => {
                let copy = output.clone();
                self.inner = Some(FutureOrResult::Result(output));
                Poll::Ready(copy)
            },
            None => {
                proof {
                    assert(false);
                }
                Poll::Pending
            },
        }
    }
}

} // verus!
