use deno_unsync::future::FutureOrResult;
use deno_unsync::FuturesUnordered;
use deno_unsync::Poll;
use deno_unsync::SharedLocal;
use deno_unsync::VecFuturesUnordered;

/// A stand-in for a future: it is ready with `output` after `polls` more
/// polls.
#[derive(Debug, Clone, Copy, PartialEq)]
struct Countdown {
    output: u32,
    polls: u32,
}

fn countdown(output: u32, polls: u32) -> Countdown {
    Countdown { output, polls }
}

fn poll_countdown(mut future: Countdown) -> (Countdown, Option<u32>) {
    if future.polls <= 1 {
        future.polls = 0;
        (future, Some(future.output))
    } else {
        future.polls -= 1;
        (future, None)
    }
}

fn next_unordered(futures: &mut FuturesUnordered<Countdown>) -> Option<u32> {
    loop {
        match futures.poll_next(&mut poll_countdown) {
            Poll::Ready(output) => return output,
            Poll::Pending => {}
        }
    }
}

fn next_vec(futures: &mut VecFuturesUnordered<Countdown>) -> Option<u32> {
    loop {
        match futures.poll_next(&mut poll_countdown) {
            Poll::Ready(output) => return output,
            Poll::Pending => {}
        }
    }
}

#[test]
fn handles_into_iter() {
    let futures = vec![countdown(1, 2), countdown(2, 3)];
    let mut futures = FuturesUnordered::from_iter(futures);
    assert_eq!(futures.len(), 2);
    assert_eq!(next_unordered(&mut futures), Some(1));
    assert_eq!(next_unordered(&mut futures), Some(2));
    assert_eq!(next_unordered(&mut futures), None);
}

#[test]
fn futures_unordered_completes_first_to_finish_polls() {
    let mut futures = FuturesUnordered::new();
    futures.push(countdown(1, 4));
    futures.push(countdown(2, 3));
    futures.push(countdown(3, 2));
    assert_eq!(futures.len(), 3);

    let first = next_unordered(&mut futures).unwrap();
    assert_eq!(futures.len(), 2);
    let second = next_unordered(&mut futures).unwrap();
    assert_eq!(futures.len(), 1);
    assert!(!futures.is_empty());
    let third = next_unordered(&mut futures).unwrap();
    assert_eq!(futures.len(), 0);
    assert!(futures.is_empty());
    assert_eq!(first, 3);
    assert_eq!(second, 2);
    assert_eq!(third, 1);
}

#[test]
fn futures_unordered_polls_latest_first_and_stops_at_ready() {
    let mut futures = FuturesUnordered::new();
    futures.push(countdown(1, 1));
    futures.push(countdown(2, 1));
    // both are ready at the first poll; the latest pushed is polled first
    assert!(matches!(futures.poll_next(&mut poll_countdown), Poll::Ready(Some(2))));
    assert_eq!(futures.size_hint(), (1, Some(1)));
    assert!(matches!(futures.poll_next(&mut poll_countdown), Poll::Ready(Some(1))));
    assert!(matches!(futures.poll_next(&mut poll_countdown), Poll::Ready(None)));
    let mut default: FuturesUnordered<Countdown> = FuturesUnordered::default();
    assert!(matches!(default.poll_next(&mut poll_countdown), Poll::Ready(None)));
}

#[test]
fn vec_futures_unordered_completes_first_to_finish_polls() {
    let mut futures = VecFuturesUnordered::with_capacity(3);
    futures.push(countdown(1, 4));
    futures.push(countdown(2, 3));
    futures.push(countdown(3, 2));
    assert_eq!(futures.len(), 3);

    let first = next_vec(&mut futures).unwrap();
    assert_eq!(futures.len(), 2);
    let second = next_vec(&mut futures).unwrap();
    assert_eq!(futures.len(), 1);
    assert!(!futures.is_empty());
    let third = next_vec(&mut futures).unwrap();
    assert_eq!(futures.len(), 0);
    assert!(futures.is_empty());
    assert_eq!(first, 3);
    assert_eq!(second, 2);
    assert_eq!(third, 1);
}

#[test]
fn vec_futures_unordered_polls_in_order_and_swaps_in_the_last() {
    let mut futures = VecFuturesUnordered::with_capacity(4);
    futures.push(countdown(1, 3));
    futures.push(countdown(2, 1));
    futures.push(countdown(3, 3));
    futures.push(countdown(4, 3));
    // the second is ready at once; the last takes its place
    assert!(matches!(futures.poll_next(&mut poll_countdown), Poll::Ready(Some(2))));
    assert_eq!(futures.size_hint(), (3, Some(3)));
    // every future is polled once more: all pending
    assert!(matches!(futures.poll_next(&mut poll_countdown), Poll::Pending));
    // the first is ready at its third poll; the last, 3, takes its place
    assert!(matches!(futures.poll_next(&mut poll_countdown), Poll::Ready(Some(1))));
    // 3 and 4 each have one poll to go
    assert!(matches!(futures.poll_next(&mut poll_countdown), Poll::Pending));
    assert!(matches!(futures.poll_next(&mut poll_countdown), Poll::Ready(Some(3))));
    assert!(matches!(futures.poll_next(&mut poll_countdown), Poll::Ready(Some(4))));
    assert!(matches!(futures.poll_next(&mut poll_countdown), Poll::Ready(None)));
}

#[test]
fn test_shared_local_future() {
    let mut shared: SharedLocal<Countdown, u32> = SharedLocal::new(countdown(42, 2));
    assert!(matches!(shared.poll(&mut poll_countdown), Poll::Pending));
    assert!(matches!(shared.poll(&mut poll_countdown), Poll::Ready(42)));
    // the output is kept: polling again gives it without polling the future
    let mut never = |_future: Countdown| -> (Countdown, Option<u32>) {
        panic!("a finished future is not polled again")
    };
    assert!(matches!(shared.poll(&mut never), Poll::Ready(42)));
    assert!(matches!(shared.poll(&mut never), Poll::Ready(42)));
    let _ = FutureOrResult::<Countdown, u32>::Result(1);
}

#[test]
fn futures_unordered_completes_first_to_finish_time() {
    // the number of polls a future needs stands for the time it takes
    let mut futures = FuturesUnordered::new();
    futures.push(countdown(1, 100));
    futures.push(countdown(2, 50));
    futures.push(countdown(3, 25));

    let first = next_unordered(&mut futures).unwrap();
    let second = next_unordered(&mut futures).unwrap();
    let third = next_unordered(&mut futures).unwrap();
    assert_eq!(first, 3);
    assert_eq!(second, 2);
    assert_eq!(third, 1);
}

#[test]
fn vec_futures_unordered_completes_first_to_finish_time() {
    let mut futures = VecFuturesUnordered::with_capacity(3);
    futures.push(countdown(1, 100));
    futures.push(countdown(2, 50));
    futures.push(countdown(3, 25));

    let first = next_vec(&mut futures).unwrap();
    let second = next_vec(&mut futures).unwrap();
    let third = next_vec(&mut futures).unwrap();
    assert_eq!(first, 3);
    assert_eq!(second, 2);
    assert_eq!(third, 1);
}

#[test]
fn test_shared_local() {
    let mut shared: SharedLocal<Countdown, u32> = SharedLocal::new(countdown(42, 1));
    assert!(matches!(shared.poll(&mut poll_countdown), Poll::Ready(42)));
    assert!(matches!(shared.poll(&mut poll_countdown), Poll::Ready(42)));
}

#[test]
fn shared_local_gives_its_output_once_finished() {
    let mut shared: SharedLocal<Countdown, u32> = SharedLocal::new(countdown(7, 2));
    assert_eq!(shared.finished_output(), None);
    assert!(matches!(shared.poll(&mut poll_countdown), Poll::Pending));
    assert_eq!(shared.finished_output(), None);
    assert!(matches!(shared.poll(&mut poll_countdown), Poll::Ready(7)));
    assert_eq!(shared.finished_output(), Some(&7));
}
