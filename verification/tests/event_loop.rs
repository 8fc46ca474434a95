use butler::connect::{classify_peer_query, connect_progress, ConnectProgress};
use butler::runtime::{
    io_waker_key, poll_failure_is_fatal, PollFailure, Runtime, BUTLER_WAKER_TOKEN, EXTERNAL_WAKER_BASE,
};
use std::sync::atomic::{AtomicUsize, Ordering};
use std::sync::Arc;
use std::task::{Wake, Waker};

struct CountingWaker {
    wakes: AtomicUsize,
}

impl Wake for CountingWaker {
    fn wake(self: Arc<Self>) {
        self.wakes.fetch_add(1, Ordering::SeqCst);
    }

    fn wake_by_ref(self: &Arc<Self>) {
        self.wakes.fetch_add(1, Ordering::SeqCst);
    }
}

fn counting_waker() -> (Arc<CountingWaker>, Waker) {
    let counter = Arc::new(CountingWaker { wakes: AtomicUsize::new(0) });
    let waker = Waker::from(counter.clone());
    (counter, waker)
}

#[test]
fn token_numbering() {
    assert_eq!(BUTLER_WAKER_TOKEN, 0);
    assert_eq!(EXTERNAL_WAKER_BASE, 1);
}

#[test]
fn timeout_without_sleepers_is_unbounded() {
    let mut rt = Runtime::new();
    assert_eq!(rt.next_timeout(1_000), None);
}

#[test]
fn timeout_runs_until_next_deadline() {
    let mut rt = Runtime::new();
    let (_c, waker) = counting_waker();
    let mut sleep = rt.sleep_until(5_000);
    assert!(!sleep.poll(&mut rt.sleepers, &waker));
    assert_eq!(rt.next_timeout(1_200), Some(3_800));
}

#[test]
fn timeout_fires_due_sleeps() {
    let mut rt = Runtime::new();
    let (counter, waker) = counting_waker();
    let mut due = rt.sleep_until(100);
    let mut later = rt.sleep_until(900);
    assert!(!due.poll(&mut rt.sleepers, &waker));
    assert!(!later.poll(&mut rt.sleepers, &waker));
    assert_eq!(rt.next_timeout(100), Some(800));
    assert_eq!(counter.wakes.load(Ordering::SeqCst), 1);
    assert!(due.poll(&mut rt.sleepers, &waker));
}

#[test]
fn token_keys() {
    assert_eq!(io_waker_key(BUTLER_WAKER_TOKEN), None);
    assert_eq!(io_waker_key(1), Some(0));
    assert_eq!(io_waker_key(8), Some(7));
}

#[test]
fn own_token_ends_the_wait() {
    let rt = Runtime::new();
    assert!(!rt.dispatch_events(&vec![BUTLER_WAKER_TOKEN], true).0);
    assert!(!rt.dispatch_events(&vec![3, BUTLER_WAKER_TOKEN, 7], true).0);
}

#[test]
fn wait_goes_on_without_own_token() {
    let rt = Runtime::new();
    assert!(rt.dispatch_events(&vec![], true).0);
    assert!(rt.dispatch_events(&vec![2, 4], true).0);
    assert!(!rt.dispatch_events(&vec![2, 4], false).0);
}

#[test]
fn io_token_wakes_its_waker() {
    let mut rt = Runtime::new();
    let (counter, waker) = counting_waker();
    let key = rt.io_wakers.insert(waker);
    let (idle, woken) = rt.dispatch_events(&vec![key + EXTERNAL_WAKER_BASE], true);
    assert!(idle);
    assert_eq!(woken, vec![key]);
    assert_eq!(counter.wakes.load(Ordering::SeqCst), 1);
    let (_, woken) = rt.dispatch_events(&vec![key + EXTERNAL_WAKER_BASE + 1], false);
    assert_eq!(woken, Vec::<usize>::new());
    assert_eq!(counter.wakes.load(Ordering::SeqCst), 1);
}

#[test]
fn woken_keys_follow_token_order() {
    let mut rt = Runtime::new();
    let (first, w1) = counting_waker();
    let (second, w2) = counting_waker();
    let k1 = rt.io_wakers.insert(w1);
    let k2 = rt.io_wakers.insert(w2);
    assert_eq!((k1, k2), (0, 1));
    let (idle, woken) = rt.dispatch_events(&vec![2, BUTLER_WAKER_TOKEN, 9, 1, 2], true);
    assert!(!idle);
    assert_eq!(woken, vec![1, 0, 1]);
    assert_eq!(first.wakes.load(Ordering::SeqCst), 1);
    assert_eq!(second.wakes.load(Ordering::SeqCst), 2);
}

#[test]
fn only_other_poll_failures_are_fatal() {
    assert!(!poll_failure_is_fatal(PollFailure::TimedOut));
    assert!(!poll_failure_is_fatal(PollFailure::Interrupted));
    assert!(poll_failure_is_fatal(PollFailure::Other));
}

#[test]
fn known_peer_means_connected() {
    assert!(matches!(classify_peer_query(true, false, None, 115), ConnectProgress::Connected));
    assert!(matches!(connect_progress(true, true, Some(1)), ConnectProgress::Connected));
}

#[test]
fn handshake_under_way_is_in_progress() {
    assert!(matches!(classify_peer_query(false, true, None, 115), ConnectProgress::InProgress));
    assert!(matches!(classify_peer_query(false, false, Some(115), 115), ConnectProgress::InProgress));
    assert!(matches!(connect_progress(false, true, None), ConnectProgress::InProgress));
    assert!(matches!(connect_progress(false, false, Some(libc::EINPROGRESS)), ConnectProgress::InProgress));
}

#[test]
fn other_errors_fail_the_connection() {
    assert!(matches!(classify_peer_query(false, false, Some(111), 115), ConnectProgress::Failed));
    assert!(matches!(classify_peer_query(false, false, None, 115), ConnectProgress::Failed));
    assert!(matches!(connect_progress(false, false, None), ConnectProgress::Failed));
    assert!(matches!(connect_progress(false, false, Some(libc::ECONNREFUSED)), ConnectProgress::Failed));
}
