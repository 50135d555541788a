# deno_unsync

Single-threaded synchronisation primitives for async Rust — flags, a task
queue that runs tasks one at a time in order, a notifier, an unbounded
channel, a shared future and two unordered collections of futures — with
their logic verified by Verus.

## Layout

- `src/` is the verified library. Every primitive is a state machine:
  the state that its handles share is one value, and each operation
  (acquiring, polling, releasing, dropping a handle, sending, notifying)
  is a function of that state, of the waker of the polling task, or of a
  closure that polls an inner future. An operation that wakes a task
  (releasing a permit, notifying, sending, closing a channel) hands the
  waker of that task back to its caller, which wakes it once the shared
  state is no longer borrowed. Each operation's effect is stated
  over a mathematical view of the state (sequences of queued values,
  waiting tickets, per-ticket flags), and the invariants and the laws
  that relate operations are proved as public proof functions.
  - `flag.rs`: `Flag` and `AtomicFlag`.
  - `task_queue.rs`: `TaskQueue`, its acquisition futures and permits,
    and the laws, over runs of operations, that at most one permit is out
    at a time and that permits are granted in ticket order.
  - `notify.rs`: `Notify` and its notified futures, with the law that a
    notification is delivered exactly once, except when the waiter it
    reaches belongs to a future polled pending more than once and already
    notified: then the notification is spent on that future again.
  - `mpsc.rs`, `mpsc/chunked_queue.rs`: the channel state and a chunked
    FIFO queue.
  - `future.rs`, `futures_unordered.rs`, `stream/`: the shared future and
    the unordered collections, polled through a closure.
  - `waker.rs`, `internal/`: the `std` waker as the library sees it, and
    waker slots.
- `app/` holds the async surface: the handles behind `Rc<RefCell<..>>`,
  the `Future` impls, the `Stream` impls of `futures_core`, and `async fn`s;
  it wakes each waker that an operation hands back.
- `tests/` exercise the state machines directly.
