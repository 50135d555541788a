//! Single-threaded synchronisation primitives for async code: flags, a
//! sequential task queue, a notifier, an unbounded channel, a shared
//! future and two "unordered" collections of futures.
//!
//! Each primitive is a state machine: the state that its handles share is
//! one value, each operation is a function of that state (and of the waker
//! of the polling task, or of a closure that polls an inner future), and
//! its effect is stated over a mathematical view of the state.

pub mod flag;
pub mod future;
pub mod futures_unordered;
pub mod internal;
pub mod marker;
pub mod mpsc;
pub mod notify;
pub mod poll;
pub mod stream;
pub mod task_queue;
pub mod waker;

pub use flag::AtomicFlag;
pub use flag::Flag;
pub use future::SharedLocal;
pub use futures_unordered::FuturesUnordered;
pub use internal::parent_waker::ParentWaker;
pub use marker::UnsendMarker;
pub use mpsc::unbounded_channel;
pub use notify::Notify;
pub use poll::Poll;
pub use stream::vec_futures_unordered::VecFuturesUnordered;
pub use task_queue::TaskQueue;
pub use task_queue::TaskQueuePermit;
pub use task_queue::TaskQueuePermitAcquireFuture;
pub use waker::UnsyncWaker;
