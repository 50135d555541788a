use deno_unsync::mpsc::chunked_queue::ChunkedQueue;
use deno_unsync::unbounded_channel;
use deno_unsync::Poll;
use std::sync::atomic::AtomicUsize;
use std::sync::atomic::Ordering;
use std::sync::Arc;
use std::task::Wake;
use std::task::Waker;

struct CountingWaker(AtomicUsize);

impl Wake for CountingWaker {
    fn wake(self: Arc<Self>) {
        self.0.fetch_add(1, Ordering::SeqCst);
    }
}

fn counting_waker() -> (Arc<CountingWaker>, Waker) {
    let counter = Arc::new(CountingWaker(AtomicUsize::new(0)));
    (counter.clone(), Waker::from(counter))
}

fn wakes(counter: &Arc<CountingWaker>) -> usize {
    counter.0.load(Ordering::SeqCst)
}

/// Wakes the waker that an operation handed out, as an executor's adapter
/// does.
fn wake(woken: Option<Waker>) {
    if let Some(waker) = woken {
        waker.wake();
    }
}

fn ready<T>(poll: Poll<Option<T>>) -> Option<T> {
    match poll {
        Poll::Ready(value) => value,
        Poll::Pending => panic!("the receive is pending"),
    }
}

#[test]
fn sends_receives_exits() {
    let (sender, mut receiver, mut shared) = unbounded_channel::<usize>();
    let waker = Waker::noop().clone();
    assert!(sender.send(&mut shared, 1).is_ok());
    assert_eq!(ready(receiver.poll_recv(&mut shared, waker.clone())), Some(1));
    assert!(sender.send(&mut shared, 2).is_ok());
    assert_eq!(ready(receiver.poll_recv(&mut shared, waker.clone())), Some(2));
    sender.drop(&mut shared);
    assert_eq!(ready(receiver.poll_recv(&mut shared, waker.clone())), None);
}

#[test]
fn sends_multiple_then_drop() {
    let (sender, mut receiver, mut shared) = unbounded_channel::<usize>();
    let waker = Waker::noop().clone();
    assert!(sender.send(&mut shared, 1).is_ok());
    assert!(sender.send(&mut shared, 2).is_ok());
    sender.drop(&mut shared);
    assert_eq!(ready(receiver.poll_recv(&mut shared, waker.clone())), Some(1));
    assert_eq!(ready(receiver.poll_recv(&mut shared, waker.clone())), Some(2));
    assert_eq!(ready(receiver.poll_recv(&mut shared, waker.clone())), None);
}

#[test]
fn receiver_dropped_sending() {
    let (sender, receiver, mut shared) = unbounded_channel::<usize>();
    receiver.drop(&mut shared);
    let err = sender.send(&mut shared, 1).unwrap_err();
    assert_eq!(err.0, 1);
}

#[test]
fn receiver_recv_then_drop_sender() {
    let (sender, mut receiver, mut shared) = unbounded_channel::<usize>();
    let (counter, waker) = counting_waker();
    assert!(matches!(receiver.poll_recv(&mut shared, waker.clone()), Poll::Pending));
    assert_eq!(wakes(&counter), 0);
    wake(sender.drop(&mut shared));
    assert_eq!(wakes(&counter), 1);
    assert!(ready(receiver.poll_recv(&mut shared, waker.clone())).is_none());
}

#[test]
fn send_wakes_a_waiting_receiver() {
    let (sender, mut receiver, mut shared) = unbounded_channel::<&str>();
    let (counter, waker) = counting_waker();
    assert!(matches!(receiver.poll_recv(&mut shared, waker.clone()), Poll::Pending));
    wake(sender.send(&mut shared, "a").unwrap());
    assert_eq!(wakes(&counter), 1);
    // the waker was used up: a second send hands out none
    assert!(sender.send(&mut shared, "b").unwrap().is_none());
    assert_eq!(wakes(&counter), 1);
    assert_eq!(ready(receiver.poll_recv(&mut shared, waker.clone())), Some("a"));
    assert_eq!(ready(receiver.poll_recv(&mut shared, waker.clone())), Some("b"));
    assert!(matches!(receiver.poll_recv(&mut shared, waker.clone()), Poll::Pending));
}

#[test]
fn chunked_queue_is_first_in_first_out_across_chunks() {
    let mut queue: ChunkedQueue<u32> = ChunkedQueue::default();
    assert_eq!(queue.len(), 0);
    assert_eq!(queue.pop_front(), None);
    for i in 0..2500u32 {
        queue.push_back(i);
    }
    assert_eq!(queue.len(), 2500);
    for i in 0..1500u32 {
        assert_eq!(queue.pop_front(), Some(i));
    }
    assert_eq!(queue.len(), 1000);
    for i in 2500..3000u32 {
        queue.push_back(i);
    }
    for i in 1500..3000u32 {
        assert_eq!(queue.pop_front(), Some(i));
    }
    assert_eq!(queue.len(), 0);
    assert_eq!(queue.pop_front(), None);
    queue.push_back(7);
    assert_eq!(queue.len(), 1);
    assert_eq!(queue.pop_front(), Some(7));
}

#[test]
fn send_hands_out_the_registered_waker() {
    let (sender, mut receiver, mut shared) = unbounded_channel::<u8>();
    let (counter, waker) = counting_waker();
    // nobody waits yet: no waker comes out
    assert!(sender.send(&mut shared, 1).unwrap().is_none());
    assert_eq!(ready(receiver.poll_recv(&mut shared, waker.clone())), Some(1));
    assert!(matches!(receiver.poll_recv(&mut shared, waker.clone()), Poll::Pending));
    let woken = sender.send(&mut shared, 2).unwrap().expect("the receiver's waker");
    assert!(woken.will_wake(&waker));
    assert_eq!(wakes(&counter), 0);
    woken.wake();
    assert_eq!(wakes(&counter), 1);
    assert_eq!(ready(receiver.poll_recv(&mut shared, waker.clone())), Some(2));
}

#[test]
fn many_sends_are_received_in_order() {
    let (sender, mut receiver, mut shared) = unbounded_channel::<u32>();
    let waker = Waker::noop().clone();
    for i in 0..3000u32 {
        assert!(sender.send(&mut shared, i).is_ok());
    }
    for i in 0..3000u32 {
        assert_eq!(ready(receiver.poll_recv(&mut shared, waker.clone())), Some(i));
    }
    assert!(matches!(receiver.poll_recv(&mut shared, waker.clone()), Poll::Pending));
}

#[test]
fn a_receive_from_another_task_replaces_the_registered_waker() {
    let (sender, mut receiver, mut shared) = unbounded_channel::<u8>();
    let (old_counter, old_waker) = counting_waker();
    let (new_counter, new_waker) = counting_waker();
    assert!(matches!(receiver.poll_recv(&mut shared, old_waker), Poll::Pending));
    assert!(matches!(receiver.poll_recv(&mut shared, new_waker.clone()), Poll::Pending));
    let woken = sender.send(&mut shared, 5).unwrap().expect("the receiver's waker");
    assert!(woken.will_wake(&new_waker));
    woken.wake();
    assert_eq!(wakes(&old_counter), 0);
    assert_eq!(wakes(&new_counter), 1);
}
