use butler::runtime::Runtime;
use butler::sleep::Sleepers;
use std::sync::atomic::{AtomicUsize, Ordering};
use std::sync::Arc;
use std::task::{Wake, Waker};

struct CountingWaker {
    wakes: AtomicUsize,
}

impl Wake for CountingWaker {
    fn wake(self: Arc<Self>) {
        self.wakes.fetch_add(1, Ordering::SeqCst);
    }

    fn wake_by_ref(self: &Arc<Self>) {
        self.wakes.fetch_add(1, Ordering::SeqCst);
    }
}

fn counting_waker() -> (Arc<CountingWaker>, Waker) {
    let counter = Arc::new(CountingWaker { wakes: AtomicUsize::new(0) });
    let waker = Waker::from(counter.clone());
    (counter, waker)
}

fn wakes(counter: &Arc<CountingWaker>) -> usize {
    counter.wakes.load(Ordering::SeqCst)
}

#[test]
fn empty_sleepers_have_no_wakeup() {
    let mut sleepers = Sleepers::new();
    assert_eq!(sleepers.get_next_wakeup(0), None);
    assert_eq!(sleepers.get_next_wakeup(u128::MAX), None);
}

#[test]
fn unpolled_sleep_reports_its_deadline() {
    let rt = Runtime::new();
    let sleep = rt.sleep_until(250);
    assert_eq!(sleep.deadline(&rt.sleepers), 250);
    assert_eq!(sleep.registered_key(), None);
}

#[test]
fn sleep_adds_duration_to_now() {
    let rt = Runtime::new();
    let sleep = rt.sleep(1_000, 500);
    assert_eq!(sleep.deadline(&rt.sleepers), 1_500);
}

#[test]
fn sleep_far_ahead_keeps_its_deadline() {
    let rt = Runtime::new();
    let far = u64::MAX as u128 * 1_000_000_000;
    let sleep = rt.sleep(10, far);
    assert_eq!(sleep.deadline(&rt.sleepers), far + 10);
}

#[test]
fn completed_sleep_keeps_no_key_and_its_deadline() {
    let mut rt = Runtime::new();
    let (_c, waker) = counting_waker();
    let mut sleep = rt.sleep_until(100);
    assert!(!sleep.poll(&mut rt.sleepers, &waker));
    assert_eq!(rt.sleepers.get_next_wakeup(100), None);
    assert!(sleep.poll(&mut rt.sleepers, &waker));
    assert_eq!(sleep.registered_key(), None);
    assert_eq!(sleep.deadline(&rt.sleepers), 100);
    assert!(sleep.poll(&mut rt.sleepers, &waker));
    sleep.release(&mut rt.sleepers);
}

#[test]
fn completed_sleep_leaves_a_reused_key_alone() {
    let mut rt = Runtime::new();
    let (_c, waker) = counting_waker();
    let mut first = rt.sleep_until(1);
    assert!(!first.poll(&mut rt.sleepers, &waker));
    let key = first.registered_key().unwrap();
    assert_eq!(rt.sleepers.get_next_wakeup(5), None);
    assert!(first.poll(&mut rt.sleepers, &waker));
    let mut second = rt.sleep_until(1_000);
    assert!(!second.poll(&mut rt.sleepers, &waker));
    assert_eq!(second.registered_key(), Some(key));
    assert_eq!(first.deadline(&rt.sleepers), 1);
    first.release(&mut rt.sleepers);
    assert!(rt.sleepers.has_entry(key));
    assert_eq!(second.deadline(&rt.sleepers), 1_000);
    assert_eq!(rt.sleepers.get_next_wakeup(5), Some(1_000));
    assert!(!second.poll(&mut rt.sleepers, &waker));
}

#[test]
fn answers_move_later_without_new_sleeps() {
    let mut rt = Runtime::new();
    let (_c, waker) = counting_waker();
    let mut a = rt.sleep_until(10);
    let mut b = rt.sleep_until(20);
    assert!(!a.poll(&mut rt.sleepers, &waker));
    assert!(!b.poll(&mut rt.sleepers, &waker));
    assert_eq!(rt.sleepers.get_next_wakeup(0), Some(10));
    assert_eq!(rt.sleepers.get_next_wakeup(15), Some(20));
    b.release(&mut rt.sleepers);
    assert_eq!(rt.sleepers.get_next_wakeup(15), None);
    assert_eq!(rt.sleepers.get_next_wakeup(30), None);
}

#[test]
fn sleep_completes_only_after_a_consultation_at_its_deadline() {
    let mut rt = Runtime::new();
    let (_c, waker) = counting_waker();
    let mut sleep = rt.sleep_until(100);
    assert!(!sleep.poll(&mut rt.sleepers, &waker));
    for now in [0, 50, 99] {
        assert_eq!(rt.sleepers.get_next_wakeup(now), Some(100));
        assert!(!sleep.poll(&mut rt.sleepers, &waker));
    }
    assert_eq!(rt.sleepers.get_next_wakeup(100), None);
    assert!(sleep.poll(&mut rt.sleepers, &waker));
}

#[test]
fn first_poll_registers_and_keeps_deadline() {
    let mut rt = Runtime::new();
    let (_counter, waker) = counting_waker();
    let mut sleep = rt.sleep_until(100);
    assert!(!sleep.poll(&mut rt.sleepers, &waker));
    let key = sleep.registered_key().expect("registered after the first poll");
    assert!(rt.sleepers.has_entry(key));
    assert_eq!(sleep.deadline(&rt.sleepers), 100);
}

#[test]
fn next_wakeup_is_the_earliest_future_deadline() {
    let mut rt = Runtime::new();
    let (_c, waker) = counting_waker();
    let mut a = rt.sleep_until(300);
    let mut b = rt.sleep_until(100);
    let mut c = rt.sleep_until(200);
    assert!(!a.poll(&mut rt.sleepers, &waker));
    assert!(!b.poll(&mut rt.sleepers, &waker));
    assert!(!c.poll(&mut rt.sleepers, &waker));
    assert_eq!(rt.sleepers.get_next_wakeup(50), Some(100));
}

#[test]
fn due_sleep_fires_and_completes() {
    let mut rt = Runtime::new();
    let (counter, waker) = counting_waker();
    let mut sleep = rt.sleep_until(100);
    assert!(!sleep.poll(&mut rt.sleepers, &waker));
    assert_eq!(rt.sleepers.get_next_wakeup(100), None);
    assert_eq!(wakes(&counter), 1);
    let key = sleep.registered_key().unwrap();
    assert!(sleep.poll(&mut rt.sleepers, &waker));
    assert!(!rt.sleepers.has_entry(key));
}

#[test]
fn sleep_never_fires_early() {
    let mut rt = Runtime::new();
    let (counter, waker) = counting_waker();
    let mut sleep = rt.sleep_until(100);
    assert!(!sleep.poll(&mut rt.sleepers, &waker));
    assert_eq!(rt.sleepers.get_next_wakeup(99), Some(100));
    assert_eq!(wakes(&counter), 0);
    assert!(!sleep.poll(&mut rt.sleepers, &waker));
}

#[test]
fn due_sleeps_fire_and_later_one_is_next() {
    let mut rt = Runtime::new();
    let (first, w1) = counting_waker();
    let (second, w2) = counting_waker();
    let (third, w3) = counting_waker();
    let mut a = rt.sleep_until(10);
    let mut b = rt.sleep_until(20);
    let mut c = rt.sleep_until(30);
    assert!(!a.poll(&mut rt.sleepers, &w1));
    assert!(!b.poll(&mut rt.sleepers, &w2));
    assert!(!c.poll(&mut rt.sleepers, &w3));
    assert_eq!(rt.sleepers.get_next_wakeup(25), Some(30));
    assert_eq!(wakes(&first), 1);
    assert_eq!(wakes(&second), 1);
    assert_eq!(wakes(&third), 0);
    assert!(a.poll(&mut rt.sleepers, &w1));
    assert!(b.poll(&mut rt.sleepers, &w2));
    assert!(!c.poll(&mut rt.sleepers, &w3));
}

#[test]
fn asking_twice_changes_nothing() {
    let mut rt = Runtime::new();
    let (counter, waker) = counting_waker();
    let mut a = rt.sleep_until(10);
    let mut b = rt.sleep_until(40);
    assert!(!a.poll(&mut rt.sleepers, &waker));
    assert!(!b.poll(&mut rt.sleepers, &waker));
    assert_eq!(rt.sleepers.get_next_wakeup(20), Some(40));
    assert_eq!(wakes(&counter), 1);
    assert_eq!(rt.sleepers.get_next_wakeup(20), Some(40));
    assert_eq!(wakes(&counter), 1);
}

#[test]
fn released_sleep_never_fires() {
    let mut rt = Runtime::new();
    let (gone, w1) = counting_waker();
    let (kept, w2) = counting_waker();
    let mut a = rt.sleep_until(10);
    assert!(!a.poll(&mut rt.sleepers, &w1));
    let key = a.registered_key().unwrap();
    a.release(&mut rt.sleepers);
    assert!(!rt.sleepers.has_entry(key));
    let mut b = rt.sleep_until(50);
    assert!(!b.poll(&mut rt.sleepers, &w2));
    assert_eq!(rt.sleepers.get_next_wakeup(20), Some(50));
    assert_eq!(wakes(&gone), 0);
    assert_eq!(wakes(&kept), 0);
}

#[test]
fn left_over_timer_before_next_is_cleared() {
    let mut rt = Runtime::new();
    let (_c, waker) = counting_waker();
    let mut a = rt.sleep_until(30);
    assert!(!a.poll(&mut rt.sleepers, &waker));
    a.release(&mut rt.sleepers);
    let mut b = rt.sleep_until(60);
    assert!(!b.poll(&mut rt.sleepers, &waker));
    // The timer of the released sleep lies in the future but is left over;
    // the answer skips it.
    assert_eq!(rt.sleepers.get_next_wakeup(0), Some(60));
}

#[test]
fn later_poll_replaces_the_waker() {
    let mut rt = Runtime::new();
    let (old_task, w1) = counting_waker();
    let (new_task, w2) = counting_waker();
    let mut sleep = rt.sleep_until(10);
    assert!(!sleep.poll(&mut rt.sleepers, &w1));
    assert!(!sleep.poll(&mut rt.sleepers, &w2));
    assert_eq!(rt.sleepers.get_next_wakeup(10), None);
    assert_eq!(wakes(&old_task), 0);
    assert_eq!(wakes(&new_task), 1);
    assert!(sleep.poll(&mut rt.sleepers, &w2));
}

#[test]
fn fired_entry_is_not_woken_twice() {
    let mut rt = Runtime::new();
    let (counter, waker) = counting_waker();
    let mut sleep = rt.sleep_until(10);
    assert!(!sleep.poll(&mut rt.sleepers, &waker));
    let mut other = rt.sleep_until(10);
    assert!(!other.poll(&mut rt.sleepers, &waker));
    assert_eq!(rt.sleepers.get_next_wakeup(10), None);
    assert_eq!(wakes(&counter), 2);
    assert_eq!(rt.sleepers.get_next_wakeup(10), None);
    assert_eq!(wakes(&counter), 2);
}

#[test]
fn unpolled_release_leaves_sleepers_alone() {
    let mut rt = Runtime::new();
    let sleep = rt.sleep_until(10);
    sleep.release(&mut rt.sleepers);
    assert_eq!(rt.sleepers.get_next_wakeup(0), None);
}
