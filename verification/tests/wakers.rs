use deno_unsync::ParentWaker;
use deno_unsync::UnsyncWaker;
use std::sync::atomic::AtomicUsize;
use std::sync::atomic::Ordering;
use std::sync::Arc;
use std::task::Wake;
use std::task::Waker;

struct CountingWaker(AtomicUsize);

impl Wake for CountingWaker {
    fn wake(self: Arc<Self>) {
        self.0.fetch_add(1, Ordering::SeqCst);
    }
}

fn counting_waker() -> (Arc<CountingWaker>, Waker) {
    let counter = Arc::new(CountingWaker(AtomicUsize::new(0)));
    (counter.clone(), Waker::from(counter))
}

fn wakes(counter: &Arc<CountingWaker>) -> usize {
    counter.0.load(Ordering::SeqCst)
}

/// Wakes the waker that an operation handed out, as an executor's adapter
/// does.
fn wake(woken: Option<Waker>) {
    if let Some(waker) = woken {
        waker.wake();
    }
}

/// Wakes the waker that stays stored, if any.
fn wake_by_ref(woken: Option<&Waker>) {
    if let Some(waker) = woken {
        waker.wake_by_ref();
    }
}

#[test]
fn parent_waker_wakes_once_then_is_empty() {
    let mut parent = ParentWaker::default();
    let (counter, waker) = counting_waker();
    wake(parent.wake());
    parent.set(waker);
    wake_by_ref(parent.wake_by_ref());
    assert_eq!(wakes(&counter), 1);
    wake_by_ref(parent.wake_by_ref());
    assert_eq!(wakes(&counter), 2);
    wake(parent.wake());
    assert_eq!(wakes(&counter), 3);
    wake(parent.wake());
    wake_by_ref(parent.wake_by_ref());
    assert_eq!(wakes(&counter), 3);
}

#[test]
fn unsync_waker_registers_and_wakes_once() {
    let mut slot = UnsyncWaker::default();
    let (counter, waker) = counting_waker();
    wake(slot.wake());
    slot.register(waker.clone());
    slot.register(waker.clone());
    wake(slot.wake());
    assert_eq!(wakes(&counter), 1);
    wake(slot.wake());
    assert_eq!(wakes(&counter), 1);
}

#[test]
fn parent_waker_set_replaces_the_stored_waker() {
    let mut parent = ParentWaker::default();
    let (old_counter, old_waker) = counting_waker();
    let (new_counter, new_waker) = counting_waker();
    parent.set(old_waker);
    parent.set(new_waker.clone());
    let woken = parent.wake().expect("the stored waker");
    assert!(woken.will_wake(&new_waker));
    woken.wake();
    assert_eq!(wakes(&old_counter), 0);
    assert_eq!(wakes(&new_counter), 1);
    assert!(parent.wake().is_none());
}
