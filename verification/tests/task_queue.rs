use deno_unsync::task_queue::FastOptionCell;
use deno_unsync::TaskQueue;
use deno_unsync::TaskQueuePermitAcquireFuture;
use std::sync::atomic::AtomicUsize;
use std::sync::atomic::Ordering;
use std::sync::Arc;
use std::task::Wake;
use std::task::Waker;

struct CountingWaker(AtomicUsize);

impl Wake for CountingWaker {
    fn wake(self: Arc<Self>) {
        self.0.fetch_add(1, Ordering::SeqCst);
    }
}

fn counting_waker() -> (Arc<CountingWaker>, Waker) {
    let counter = Arc::new(CountingWaker(AtomicUsize::new(0)));
    (counter.clone(), Waker::from(counter))
}

fn wakes(counter: &Arc<CountingWaker>) -> usize {
    counter.0.load(Ordering::SeqCst)
}

/// Wakes the waker that an operation handed out, as an executor's adapter
/// does.
fn wake(woken: Option<Waker>) {
    if let Some(waker) = woken {
        waker.wake();
    }
}

#[test]
fn task_queue_runs_one_after_other() {
    let mut queue = TaskQueue::default();
    let waker = Waker::noop().clone();
    let mut futures: Vec<TaskQueuePermitAcquireFuture> = Vec::new();
    for _ in 0..100 {
        futures.push(queue.acquire());
    }
    let mut data = 0;
    for i in 0..100 {
        // only the ticket at the head of the queue gets a permit
        for later in futures.iter_mut().skip(i + 1) {
            assert!(later.poll(&mut queue, waker.clone()).is_none());
        }
        let permit = futures[i].poll(&mut queue, waker.clone()).unwrap();
        assert_eq!(i, data);
        data = i + 1;
        wake(permit.drop(&mut queue));
    }
    assert_eq!(data, 100);
}

#[test]
fn tasks_run_in_sequence() {
    let mut queue = TaskQueue::default();
    let waker = Waker::noop().clone();
    let mut first = queue.acquire();
    let mut second = queue.acquire();
    let mut data = 0;
    assert!(second.poll(&mut queue, waker.clone()).is_none());
    let permit = first.poll(&mut queue, waker.clone()).unwrap();
    data = 1;
    wake(permit.drop(&mut queue));
    let permit = second.poll(&mut queue, waker.clone()).unwrap();
    assert_eq!(data, 1);
    data = 2;
    wake(permit.drop(&mut queue));
    assert_eq!(data, 2);
}

#[test]
fn future_dropped_before_poll() {
    let mut queue = TaskQueue::default();
    // acquire a future, but do not poll it
    let future = queue.acquire();
    // this one is blocked by the first
    let (counter, waker) = counting_waker();
    let mut delayed = queue.acquire();
    assert!(delayed.poll(&mut queue, waker.clone()).is_none());
    assert_eq!(wakes(&counter), 0);
    // now, drop the first future: the delayed one is woken and runs
    wake(future.drop(&mut queue));
    assert_eq!(wakes(&counter), 1);
    assert!(delayed.poll(&mut queue, waker.clone()).is_some());
}

#[test]
fn many_future_dropped_before_poll() {
    let mut queue = TaskQueue::default();
    let mut futures = Vec::new();
    for _ in 0..5 {
        futures.push(queue.acquire());
    }
    let (counter, waker) = counting_waker();
    let mut delayed = queue.acquire();
    assert!(delayed.poll(&mut queue, waker.clone()).is_none());
    // drop the futures in the order in which they were taken: each one is
    // granted the queue in turn and hands it on as it is dropped
    for future in futures {
        assert_eq!(wakes(&counter), 0);
        wake(future.drop(&mut queue));
    }
    assert_eq!(wakes(&counter), 1);
    assert!(delayed.poll(&mut queue, waker.clone()).is_some());
}

#[test]
fn later_futures_dropped_first_are_skipped() {
    let mut queue = TaskQueue::default();
    let mut futures = Vec::new();
    for _ in 0..5 {
        futures.push(queue.acquire());
    }
    let (counter, waker) = counting_waker();
    let mut delayed = queue.acquire();
    assert!(delayed.poll(&mut queue, waker.clone()).is_none());
    // drop the later ones first: nothing moves while the first holds
    while futures.len() > 1 {
        let future = futures.pop().unwrap();
        wake(future.drop(&mut queue));
        assert_eq!(wakes(&counter), 0);
    }
    wake(futures.pop().unwrap().drop(&mut queue));
    assert_eq!(wakes(&counter), 1);
    assert!(delayed.poll(&mut queue, waker.clone()).is_some());
}

#[test]
fn idle_queue_grants_at_once_and_release_goes_idle() {
    let mut queue = TaskQueue::default();
    let waker = Waker::noop().clone();
    let mut first = queue.acquire();
    let permit = first.poll(&mut queue, waker.clone()).unwrap();
    wake(permit.drop(&mut queue));
    let mut second = queue.acquire();
    let permit = second.poll(&mut queue, waker.clone()).unwrap();
    wake(permit.drop(&mut queue));
}

#[test]
fn release_wakes_the_next_task_once() {
    let mut queue = TaskQueue::default();
    let waker = Waker::noop().clone();
    let (counter, next_waker) = counting_waker();
    let mut first = queue.acquire();
    let mut second = queue.acquire();
    // polling twice with the same waker keeps a single stored waker
    assert!(second.poll(&mut queue, next_waker.clone()).is_none());
    assert!(second.poll(&mut queue, next_waker.clone()).is_none());
    let permit = first.poll(&mut queue, waker.clone()).unwrap();
    assert_eq!(wakes(&counter), 0);
    wake(permit.drop(&mut queue));
    assert_eq!(wakes(&counter), 1);
    assert!(second.poll(&mut queue, next_waker.clone()).is_some());
}

#[test]
fn resolved_future_drop_leaves_the_permit_in_charge() {
    let mut queue = TaskQueue::default();
    let waker = Waker::noop().clone();
    let mut first = queue.acquire();
    let mut second = queue.acquire();
    let permit = first.poll(&mut queue, waker.clone()).unwrap();
    // dropping the future that already resolved changes nothing
    wake(first.drop(&mut queue));
    assert!(second.poll(&mut queue, waker.clone()).is_none());
    wake(permit.drop(&mut queue));
    assert!(second.poll(&mut queue, waker.clone()).is_some());
}

#[test]
fn dropped_waiters_at_the_front_are_skipped() {
    let mut queue = TaskQueue::default();
    let waker = Waker::noop().clone();
    let first = queue.acquire();
    let second = queue.acquire();
    let third = queue.acquire();
    let mut fourth = queue.acquire();
    wake(second.drop(&mut queue));
    wake(third.drop(&mut queue));
    // the first was granted but never polled: dropping it skips the
    // dropped second and third and grants the fourth
    wake(first.drop(&mut queue));
    assert!(fourth.poll(&mut queue, waker.clone()).is_some());
}

#[test]
fn fast_option_cell_take_and_replace() {
    let mut cell = FastOptionCell::new(3u32);
    assert_eq!(cell.take(), Some(3));
    assert_eq!(cell.take(), None);
    cell.replace_if_with(|current| current.is_none(), || 7);
    assert_eq!(cell.take(), Some(7));
    let mut cell = FastOptionCell::new(1u32);
    cell.replace_if_with(|current| current.is_none(), || 9);
    assert_eq!(cell.take(), Some(1));
    let mut cell: FastOptionCell<u32> = FastOptionCell::default();
    assert_eq!(cell.take(), None);
}

#[test]
fn long_running_queue_keeps_order_while_letting_go_of_done_tickets() {
    let mut queue = TaskQueue::default();
    let waker = Waker::noop().clone();
    let mut held = queue.acquire();
    let mut permit = held.poll(&mut queue, waker.clone()).unwrap();
    for _ in 0..5000 {
        // one waits while another runs, over and over
        let mut next = queue.acquire();
        assert!(next.poll(&mut queue, waker.clone()).is_none());
        wake(permit.drop(&mut queue));
        permit = next.poll(&mut queue, waker.clone()).unwrap();
        held = next;
    }
    wake(held.drop(&mut queue));
    wake(permit.drop(&mut queue));
    assert_eq!(queue.ticket_count(), 5001);
    let mut last = queue.acquire();
    assert!(last.poll(&mut queue, waker.clone()).is_some());
}

#[test]
fn release_skips_a_waiter_whose_future_was_dropped() {
    let mut queue = TaskQueue::default();
    let waker = Waker::noop().clone();
    let mut first = queue.acquire();
    let second = queue.acquire();
    let (counter, third_waker) = counting_waker();
    let mut third = queue.acquire();
    let permit = first.poll(&mut queue, waker.clone()).unwrap();
    assert!(third.poll(&mut queue, third_waker.clone()).is_none());
    // the second future is dropped while it waits, never polled
    wake(second.drop(&mut queue));
    // releasing passes over the dropped second and lets the third proceed
    wake(permit.drop(&mut queue));
    assert_eq!(wakes(&counter), 1);
    assert!(third.poll(&mut queue, third_waker.clone()).is_some());
}

#[test]
fn release_with_only_dropped_waiters_leaves_the_queue_idle() {
    let mut queue = TaskQueue::default();
    let waker = Waker::noop().clone();
    let mut first = queue.acquire();
    let second = queue.acquire();
    let permit = first.poll(&mut queue, waker.clone()).unwrap();
    wake(second.drop(&mut queue));
    assert!(permit.drop(&mut queue).is_none());
    let mut next = queue.acquire();
    assert!(next.poll(&mut queue, waker.clone()).is_some());
}

#[test]
fn release_hands_out_the_stored_waker_of_the_next_task() {
    let mut queue = TaskQueue::default();
    let waker = Waker::noop().clone();
    let (counter, next_waker) = counting_waker();
    let mut first = queue.acquire();
    let mut second = queue.acquire();
    let permit = first.poll(&mut queue, waker.clone()).unwrap();
    assert!(second.poll(&mut queue, next_waker.clone()).is_none());
    let woken = permit.drop(&mut queue).expect("the waiting task's waker");
    assert!(woken.will_wake(&next_waker));
    assert_eq!(wakes(&counter), 0);
    woken.wake();
    assert_eq!(wakes(&counter), 1);
}

#[test]
fn liveness_and_holding_checks_follow_the_queue() {
    let mut queue = TaskQueue::default();
    let waker = Waker::noop().clone();
    let mut first = queue.acquire();
    let mut waiters: Vec<TaskQueuePermitAcquireFuture> = (0..7).map(|_| queue.acquire()).collect();
    assert!(first.is_live_in(&queue));
    assert!(waiters.iter().all(|w| w.is_live_in(&queue)));
    let permit = first.poll(&mut queue, waker.clone()).unwrap();
    assert!(permit.holds(&queue));
    wake(permit.drop(&mut queue));
    // the released ticket is done; the next one holds the queue now
    assert!(!first.is_live_in(&queue));
    let mut next = waiters.remove(0);
    let next_permit = next.poll(&mut queue, waker.clone()).unwrap();
    assert!(next_permit.holds(&queue));
    let mut second = waiters.remove(0);
    assert!(second.is_live_in(&queue));
    assert!(second.poll(&mut queue, waker.clone()).is_none());
}

#[test]
fn a_poll_from_another_task_replaces_the_stored_waker() {
    let mut queue = TaskQueue::default();
    let waker = Waker::noop().clone();
    let (old_counter, old_waker) = counting_waker();
    let (new_counter, new_waker) = counting_waker();
    let mut first = queue.acquire();
    let mut second = queue.acquire();
    let permit = first.poll(&mut queue, waker).unwrap();
    assert!(second.poll(&mut queue, old_waker).is_none());
    // the future moves to another task, which polls it
    assert!(second.poll(&mut queue, new_waker.clone()).is_none());
    let woken = permit.drop(&mut queue).expect("the waiting task's waker");
    assert!(woken.will_wake(&new_waker));
    woken.wake();
    assert_eq!(wakes(&old_counter), 0);
    assert_eq!(wakes(&new_counter), 1);
}
