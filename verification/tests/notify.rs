use deno_unsync::notify::NotifiedFuture;
use deno_unsync::Notify;
use std::sync::atomic::AtomicUsize;
use std::sync::atomic::Ordering;
use std::sync::Arc;
use std::task::Wake;
use std::task::Waker;

struct CountingWaker(AtomicUsize);

impl Wake for CountingWaker {
    fn wake(self: Arc<Self>) {
        self.0.fetch_add(1, Ordering::SeqCst);
    }
}

fn counting_waker() -> (Arc<CountingWaker>, Waker) {
    let counter = Arc::new(CountingWaker(AtomicUsize::new(0)));
    (counter.clone(), Waker::from(counter))
}

fn wakes(counter: &Arc<CountingWaker>) -> usize {
    counter.0.load(Ordering::SeqCst)
}

/// Wakes the waker that an operation handed out, as an executor's adapter
/// does.
fn wake(woken: Option<Waker>) {
    if let Some(waker) = woken {
        waker.wake();
    }
}

#[test]
fn multiple_notify_one_before_await() {
    let mut notify = Notify::new();
    let waker = Waker::noop().clone();
    wake(notify.notify_one());
    wake(notify.notify_one());
    let first: NotifiedFuture = notify.notified();
    assert!(first.poll(&mut notify, waker.clone()));
    let second = notify.notified();
    assert!(second.poll(&mut notify, waker.clone()));
    // both kept notifications are spent
    let third = notify.notified();
    assert!(!third.poll(&mut notify, waker.clone()));
}

#[test]
fn should_build_up_notifies() {
    let mut notify1 = Notify::new();
    let mut notify2 = Notify::new();
    let (counter, waker) = counting_waker();
    // the task waits on notify1
    let waiting = notify1.notified();
    assert!(!waiting.poll(&mut notify1, waker.clone()));
    wake(notify1.notify_one());
    assert_eq!(wakes(&counter), 1);
    // woken, it resolves and notifies notify2, on which nobody waits yet
    assert!(waiting.poll(&mut notify1, waker.clone()));
    wake(notify2.notify_one());
    let later = notify2.notified();
    assert!(later.poll(&mut notify2, waker.clone()));
}

#[test]
fn notify_one_wakes_in_order_and_skips_dropped() {
    let mut notify = Notify::new();
    let (first_counter, first_waker) = counting_waker();
    let (second_counter, second_waker) = counting_waker();
    let (third_counter, third_waker) = counting_waker();
    let first = notify.notified();
    let second = notify.notified();
    let third = notify.notified();
    assert!(!first.poll(&mut notify, first_waker.clone()));
    assert!(!second.poll(&mut notify, second_waker.clone()));
    assert!(!third.poll(&mut notify, third_waker.clone()));
    first.drop(&mut notify);
    wake(notify.notify_one());
    assert_eq!(wakes(&first_counter), 0);
    assert_eq!(wakes(&second_counter), 1);
    assert_eq!(wakes(&third_counter), 0);
    assert!(second.poll(&mut notify, second_waker.clone()));
    assert!(!third.poll(&mut notify, third_waker.clone()));
}

#[test]
fn notified_future_stays_notified() {
    let mut notify = Notify::new();
    let waker = Waker::noop().clone();
    wake(notify.notify_one());
    let future = notify.notified();
    assert!(future.poll(&mut notify, waker.clone()));
    assert!(future.poll(&mut notify, waker.clone()));
    // dropping a notified future gives nothing back
    future.drop(&mut notify);
    let other = notify.notified();
    assert!(!other.poll(&mut notify, waker.clone()));
}

#[test]
fn notify_with_only_dropped_waiters_is_kept() {
    let mut notify = Notify::new();
    let waker = Waker::noop().clone();
    let gone = notify.notified();
    assert!(!gone.poll(&mut notify, waker.clone()));
    gone.drop(&mut notify);
    wake(notify.notify_one());
    let next = notify.notified();
    assert!(next.poll(&mut notify, waker.clone()));
}

#[test]
fn dropped_futures_give_their_slots_back() {
    let mut notify = Notify::new();
    let waker = Waker::noop().clone();
    for _ in 0..1000 {
        let future = notify.notified();
        assert!(!future.poll(&mut notify, waker.clone()));
        future.drop(&mut notify);
        // the dropped future's waker is skipped, and its slot freed
        wake(notify.notify_one());
        let next = notify.notified();
        assert!(next.poll(&mut notify, waker.clone()));
        next.drop(&mut notify);
    }
    assert!(notify.future_count() <= 2);
    assert_eq!(notify.waiter_count(), 0);
    assert_eq!(notify.kept_notifications(), 0);
}

#[test]
fn a_slot_is_kept_while_a_waker_refers_to_it() {
    let mut notify = Notify::new();
    let (counter, waker) = counting_waker();
    let first = notify.notified();
    assert!(!first.poll(&mut notify, waker.clone()));
    first.drop(&mut notify);
    // the first future's waker still waits, so its slot is not reused
    let second = notify.notified();
    assert_eq!(notify.future_count(), 2);
    assert!(!second.poll(&mut notify, waker.clone()));
    wake(notify.notify_one());
    assert_eq!(wakes(&counter), 1);
    assert!(second.poll(&mut notify, waker.clone()));
}

#[test]
fn notify_one_hands_out_the_waker_of_the_first_waiter() {
    let mut notify = Notify::new();
    let (counter, waker) = counting_waker();
    let future = notify.notified();
    assert!(!future.poll(&mut notify, waker.clone()));
    let woken = notify.notify_one().expect("the waiting future's waker");
    assert!(woken.will_wake(&waker));
    assert_eq!(wakes(&counter), 0);
    woken.wake();
    assert_eq!(wakes(&counter), 1);
    // nobody waits any more: the next notification is kept, no waker
    assert!(notify.notify_one().is_none());
    assert_eq!(notify.kept_notifications(), 1);
}

#[test]
fn a_waiting_future_registers_the_waker_it_was_polled_with() {
    let mut notify = Notify::new();
    let (first_counter, first_waker) = counting_waker();
    let (second_counter, second_waker) = counting_waker();
    let first = notify.notified();
    let second = notify.notified();
    assert!(!first.poll(&mut notify, first_waker.clone()));
    assert!(!second.poll(&mut notify, second_waker.clone()));
    let woken = notify.notify_one().expect("the first waiter's waker");
    assert!(woken.will_wake(&first_waker));
    woken.wake();
    let woken = notify.notify_one().expect("the second waiter's waker");
    assert!(woken.will_wake(&second_waker));
    woken.wake();
    assert_eq!(wakes(&first_counter), 1);
    assert_eq!(wakes(&second_counter), 1);
}
