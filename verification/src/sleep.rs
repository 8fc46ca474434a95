//! Timers: the sleepers registry that the event loop consults, and the
//! sleep futures that register themselves in it.

use vstd::prelude::*;
use crate::slots::{sleep_entries, new_entry_slab, insert_entry, get_entry, get_entry_mut, remove_entry};
use crate::wakers::{wake, clone_waker, clone_waker_into};
use crate::runtime::Runtime;

verus! {

/// A timer in the queue: the deadline, and the key of the entry it was
/// registered for. Deadlines are nanoseconds on the runtime's clock, which
/// counts from the runtime's start.
#[derive(Clone, Copy)]
pub struct Timer {
    pub deadline: u128,
    pub key: usize,
}

/// Whether a registered sleep still waits, holding the waker of its task.
pub enum EntryState {
    Pending(std::task::Waker),
    Done,
}

/// A registered sleep: its deadline and its state.
pub struct Entry {
    pub deadline: u128,
    pub state: EntryState,
}

/// What proofs see of an entry.
pub struct EntryView {
    pub deadline: u128,
    pub done: bool,
}

impl View for Entry {
    type V = EntryView;

    open spec fn view(&self) -> EntryView {
        EntryView { deadline: self.deadline, done: self.state is Done }
    }
}

/// The timers of the runtime: a queue of timers, earliest deadline first out,
/// and the entries of the sleeps that are registered.
pub struct Sleepers {
    timers: TimerQueue,
    entries: slab::Slab<Entry>,
    /// For each registered key, the waker last handed to a poll of its sleep:
    /// the entry holds a clone of it, which wakes the same task.
    sources: Ghost<Map<usize, std::task::Waker>>,
    /// The record of the wakers fired so far, by key, each as the waker that
    /// it was cloned from.
    fired: Ghost<Seq<(usize, std::task::Waker)>>,
}

/// The timer queue, earliest deadline out first: a vector whose deadlines
/// never grow towards the end, so that the next timer out is the last one.
struct TimerQueue {
    timers: Vec<Timer>,
}

/// The model of the sleepers: the timer queue as a sequence whose last
/// element is the next one out, and the entries by key.
pub struct SleepersView {
    pub timers: Seq<Timer>,
    pub entries: Map<usize, EntryView>,
}

/// The queue order: deadlines never grow towards the end, so the last timer
/// is one with the earliest deadline.
pub open spec fn timers_ordered(timers: Seq<Timer>) -> bool {
    forall|i: int, j: int| 0 <= i <= j < timers.len() ==> #[trigger] timers[j].deadline <= #[trigger] timers[i].deadline
}

/// A timer is live when the entry under its key exists and carries its
/// deadline; otherwise the timer is left over from an entry that is gone.
pub open spec fn is_live(entries: Map<usize, EntryView>, timer: Timer) -> bool {
    entries.contains_key(timer.key) && entries[timer.key].deadline == timer.deadline
}

/// Some live timer for `key` at position `from` or later in `timers` is due
/// at `now`.
pub open spec fn is_due_from(timers: Seq<Timer>, from: int, entries: Map<usize, EntryView>, now: u128, key: usize) -> bool {
    exists|i: int| from <= i < timers.len() && #[trigger] timers[i].key == key
        && is_live(entries, timers[i]) && timers[i].deadline <= now
}

/// Some live timer for `key` in `timers` is due at `now`.
pub open spec fn is_due(timers: Seq<Timer>, entries: Map<usize, EntryView>, now: u128, key: usize) -> bool {
    is_due_from(timers, 0, entries, now, key)
}

impl SleepersView {
    pub open spec fn wf(self) -> bool {
        timers_ordered(self.timers)
    }

    /// The earliest live deadline after `now`, if there is one.
    pub open spec fn is_next_wakeup(self, now: u128, d: u128) -> bool {
        &&& now < d
        &&& exists|i: int| 0 <= i < self.timers.len() && is_live(self.entries, #[trigger] self.timers[i])
            && self.timers[i].deadline == d
        &&& forall|i: int| 0 <= i < self.timers.len() && is_live(self.entries, #[trigger] self.timers[i])
            && now < self.timers[i].deadline ==> d <= self.timers[i].deadline
    }

    pub open spec fn has_future_timer(self, now: u128) -> bool {
        exists|i: int| 0 <= i < self.timers.len() && is_live(self.entries, #[trigger] self.timers[i])
            && now < self.timers[i].deadline
    }
}

/// What one call of `get_next_wakeup(now)` does, from `pre` to `post`,
/// answering `next`:
/// - timers leave from the front of the queue only, and each that leaves is
///   due or left over;
/// - every entry with a due live timer is marked done, no other entry changes;
/// - the answer is the deadline of the live timer now at the front, which is
///   after `now`, or none when the queue has run empty.
pub open spec fn wakeup_post(pre: SleepersView, now: u128, post: SleepersView, next: Option<u128>) -> bool {
    &&& post.timers.len() <= pre.timers.len()
    &&& post.timers == pre.timers.take(post.timers.len() as int)
    &&& forall|i: int| post.timers.len() <= i < pre.timers.len()
        ==> !is_live(pre.entries, #[trigger] pre.timers[i]) || pre.timers[i].deadline <= now
    &&& post.entries.dom() == pre.entries.dom()
    &&& forall|k: usize| #[trigger] pre.entries.contains_key(k) ==> post.entries[k] == (EntryView {
        deadline: pre.entries[k].deadline,
        done: pre.entries[k].done || is_due(pre.timers, pre.entries, now, k),
    })
    &&& match next {
        None => post.timers.len() == 0,
        Some(d) => post.timers.len() > 0 && post.timers.last().deadline == d && now < d
            && is_live(pre.entries, post.timers.last()),
    }
}

/// Asking for the next wakeup twice at the same time is the same as asking
/// once: the second call answers the same and changes nothing.
pub proof fn lemma_wakeup_settles(
    a: SleepersView,
    now: u128,
    b: SleepersView,
    first: Option<u128>,
    c: SleepersView,
    second: Option<u128>,
)
    requires
        a.wf(),
        wakeup_post(a, now, b, first),
        wakeup_post(b, now, c, second),
    ensures
        second == first,
        c == b,
{
    let n = b.timers.len() as int;
    assert(b.wf()) by {
        assert forall|i: int, j: int| 0 <= i <= j < b.timers.len() implies #[trigger] b.timers[j].deadline <= #[trigger] b.timers[i].deadline by {
            assert(b.timers[i] == a.timers[i]);
            assert(b.timers[j] == a.timers[j]);
        }
    }
    if n > 0 {
        assert(b.timers.last() == a.timers[n - 1]);
    }
    match first {
        None => {},
        Some(d) => {
            assert(is_live(b.entries, b.timers[n - 1]));
            if c.timers.len() < n {
                assert(!is_live(b.entries, b.timers[n - 1]) || b.timers[n - 1].deadline <= now);
            }
            assert(c.timers =~= b.timers);
        },
    }
    assert forall|k: usize| b.entries.contains_key(k) implies !is_due(b.timers, b.entries, now, k) by {
        if is_due(b.timers, b.entries, now, k) {
            let i = choose|i: int| 0 <= i < b.timers.len() && #[trigger] b.timers[i].key == k
                && is_live(b.entries, b.timers[i]) && b.timers[i].deadline <= now;
            assert(b.timers[i].deadline >= b.timers[n - 1].deadline);
        }
    }
    assert(c.entries =~= b.entries);
    assert(c.timers =~= b.timers);
}

/// After `get_next_wakeup`, every timer still queued is due no earlier than
/// the answer: the timers left over from gone entries that came before it have
/// been cleared, and with no answer the queue is empty.
pub proof fn lemma_wakeup_clears_front(pre: SleepersView, now: u128, post: SleepersView, next: Option<u128>)
    requires
        pre.wf(),
        wakeup_post(pre, now, post, next),
    ensures
        match next {
            None => post.timers.len() == 0,
            Some(d) => forall|i: int| 0 <= i < post.timers.len() ==> d <= #[trigger] post.timers[i].deadline,
        },
{
    let n = post.timers.len() as int;
    match next {
        None => {},
        Some(d) => {
            assert forall|i: int| 0 <= i < post.timers.len() implies d <= #[trigger] post.timers[i].deadline by {
                assert(post.timers[i] == pre.timers[i]);
                assert(post.timers[n - 1] == pre.timers[n - 1]);
            }
        },
    }
}

/// A sleep never fires early: `get_next_wakeup(now)` marks an entry done only
/// when its deadline is `now` or earlier.
pub proof fn lemma_never_fires_early(pre: SleepersView, now: u128, post: SleepersView, next: Option<u128>, key: usize)
    requires
        wakeup_post(pre, now, post, next),
        pre.entries.contains_key(key),
        !pre.entries[key].done,
        post.entries[key].done,
    ensures
        pre.entries[key].deadline <= now,
{
    let i = choose|i: int| 0 <= i < pre.timers.len() && #[trigger] pre.timers[i].key == key
        && is_live(pre.entries, pre.timers[i]) && pre.timers[i].deadline <= now;
}

/// A registered sleep fires once its deadline has passed: when the queue
/// holds its timer and its entry carries the timer's deadline, a call of
/// `get_next_wakeup` at that deadline or later marks the entry done; by the
/// contract of `Sleep::poll`, the next poll of the sleep then completes it.
pub proof fn lemma_registered_sleep_fires(
    pre: SleepersView,
    key: usize,
    deadline: u128,
    now: u128,
    post: SleepersView,
    next: Option<u128>,
)
    requires
        pre.timers.to_multiset().count(Timer { deadline, key }) > 0,
        pre.entries.contains_key(key),
        pre.entries[key].deadline == deadline,
        deadline <= now,
        wakeup_post(pre, now, post, next),
    ensures
        post.entries.contains_key(key),
        post.entries[key].done,
        post.entries[key].deadline == deadline,
{
    let t = Timer { deadline, key };
    vstd::seq_lib::to_multiset_contains(pre.timers, t);
    let i = choose|i: int| 0 <= i < pre.timers.len() && pre.timers[i] == t;
    assert(pre.timers[i].key == key);
    assert(is_due(pre.timers, pre.entries, now, key));
}

/// When the queue has been cut back to a prefix whose front timer is live and
/// after `now`, that timer's deadline is the next wakeup, and no timer still
/// queued is due.
proof fn lemma_front_is_next(pre: SleepersView, cur: SleepersView, now: u128)
    requires
        pre.wf(),
        0 < cur.timers.len() <= pre.timers.len(),
        cur.timers == pre.timers.take(cur.timers.len() as int),
        forall|i: int| cur.timers.len() <= i < pre.timers.len()
            ==> !is_live(pre.entries, #[trigger] pre.timers[i]) || pre.timers[i].deadline <= now,
        is_live(pre.entries, cur.timers.last()),
        now < cur.timers.last().deadline,
    ensures
        pre.is_next_wakeup(now, cur.timers.last().deadline),
        forall|k: usize| is_due(pre.timers, pre.entries, now, k)
            == is_due_from(pre.timers, cur.timers.len() as int, pre.entries, now, k),
{
    let len = cur.timers.len() as int;
    let d = cur.timers.last().deadline;
    assert(pre.timers[len - 1] == cur.timers.last());
    assert forall|i: int| 0 <= i < pre.timers.len() && is_live(pre.entries, #[trigger] pre.timers[i])
        && now < pre.timers[i].deadline implies d <= pre.timers[i].deadline by {
        if i < len {
            assert(pre.timers[i].deadline >= pre.timers[len - 1].deadline);
        }
    }
    assert forall|k: usize| is_due(pre.timers, pre.entries, now, k)
        implies is_due_from(pre.timers, len, pre.entries, now, k) by {
        let i = choose|i: int| 0 <= i < pre.timers.len() && #[trigger] pre.timers[i].key == k
            && is_live(pre.entries, pre.timers[i]) && pre.timers[i].deadline <= now;
        if i < len {
            assert(pre.timers[i].deadline >= pre.timers[len - 1].deadline);
        }
    }
    assert forall|k: usize| is_due_from(pre.timers, len, pre.entries, now, k)
        implies is_due(pre.timers, pre.entries, now, k) by {
        let i = choose|i: int| len <= i < pre.timers.len() && #[trigger] pre.timers[i].key == k
            && is_live(pre.entries, pre.timers[i]) && pre.timers[i].deadline <= now;
    }
}

impl View for TimerQueue {
    type V = Seq<Timer>;

    closed spec fn view(&self) -> Seq<Timer> {
        self.timers@
    }
}

impl TimerQueue {
    /// The queue is in order at all times.
    #[verifier::type_invariant]
    spec fn in_order(self) -> bool {
        timers_ordered(self.timers@)
    }

    fn new() -> (queue: Self)
        ensures
            queue@ == Seq::<Timer>::empty(),
    {
        TimerQueue { timers: Vec::new() }
    }

    fn len(&self) -> (n: usize)
        ensures
            n == self@.len(),
            timers_ordered(self@),
    {
        proof {
            use_type_invariant(self);
        }
        self.timers.len()
    }

    /// The next timer out, if any.
    fn peek(&self) -> (timer: Option<Timer>)
        ensures
            timers_ordered(self@),
            timer == if self@.len() == 0 {
                None::<Timer>
            } else {
                Some(self@.last())
            },
    {
        proof {
            use_type_invariant(self);
        }
        let n = self.timers.len();
        if n == 0 {
            None
        } else {
            Some(self.timers[n - 1])
        }
    }

    /// Takes the next timer out.
    fn pop(&mut self)
        ensures
            timers_ordered(old(self)@),
            timers_ordered(final(self)@),
            final(self)@ == if old(self)@.len() == 0 {
                old(self)@
            } else {
                old(self)@.drop_last()
            },
    {
        proof {
            use_type_invariant(&*self);
        }
        let mut timers = Vec::new();
        core::mem::swap(&mut timers, &mut self.timers);
        timers.pop();
        proof {
            assert forall|i: int, j: int| 0 <= i <= j < timers@.len() implies #[trigger] timers@[j].deadline
                <= #[trigger] timers@[i].deadline by {
                assert(timers@[i] == old(self)@[i]);
                assert(timers@[j] == old(self)@[j]);
            }
        }
        self.timers = timers;
    }

    /// Puts a timer into the queue at its place by deadline; among timers
    /// with the same deadline the new one comes out first.
    fn push(&mut self, timer: Timer)
        ensures
            timers_ordered(old(self)@),
            timers_ordered(final(self)@),
            final(self)@.to_multiset() == old(self)@.to_multiset().insert(timer),
    {
        proof {
            use_type_invariant(&*self);
        }
        let mut timers = Vec::new();
        core::mem::swap(&mut timers, &mut self.timers);
        let n = timers.len();
        let mut i: usize = 0;
        while i < n && timer.deadline <= timers[i].deadline
            invariant
                n == timers.len(),
                i <= n,
                timers@ == old(self)@,
                timers_ordered(timers@),
                forall|j: int| 0 <= j < i ==> timer.deadline <= #[trigger] timers@[j].deadline,
            decreases n - i,
        {
            i = i + 1;
        }
        let ghost before = timers@;
        timers.insert(i, timer);
        proof {
            let after = timers@;
            assert(after == before.insert(i as int, timer));
            assert forall|a: int, b: int| 0 <= a <= b < after.len() implies #[trigger] after[b].deadline
                <= #[trigger] after[a].deadline by {
                if a < i && b > i {
                    assert(after[b] == before[b - 1]);
                    assert(before[b - 1].deadline <= before[i as int].deadline);
                } else if a < i && b < i {
                } else if a < i && b == i {
                } else if a == i && b > i {
                    assert(after[b] == before[b - 1]);
                    assert(before[b - 1].deadline <= before[i as int].deadline);
                } else if a > i {
                    assert(after[a] == before[a - 1]);
                    assert(after[b] == before[b - 1]);
                }
            }
            vstd::seq_lib::to_multiset_insert(before, i as int, timer);
        }
        self.timers = timers;
    }
}

/// The wakers that one call of `get_next_wakeup(now)` fires, from `pre`,
/// among the timers at position `from` or later: by key and by the waker that
/// each was cloned from, as given in `sources`. Each key fires at most once;
/// exactly the entries that were pending and have a due live timer there fire;
/// and each fires the waker last handed to its sleep.
pub open spec fn fires_from(
    pre: SleepersView,
    sources: Map<usize, std::task::Waker>,
    now: u128,
    from: int,
    fresh: Seq<(usize, std::task::Waker)>,
) -> bool {
    &&& forall|i: int, j: int| 0 <= i < j < fresh.len() ==> #[trigger] fresh[i].0 != #[trigger] fresh[j].0
    &&& forall|i: int| 0 <= i < fresh.len() ==> {
        &&& pre.entries.contains_key(#[trigger] fresh[i].0)
        &&& !pre.entries[fresh[i].0].done
        &&& is_due_from(pre.timers, from, pre.entries, now, fresh[i].0)
        &&& fresh[i].1 == sources[fresh[i].0]
    }
    &&& forall|k: usize| #[trigger] pre.entries.contains_key(k) && !pre.entries[k].done
        && is_due_from(pre.timers, from, pre.entries, now, k)
        ==> exists|i: int| 0 <= i < fresh.len() && #[trigger] fresh[i].0 == k
}

/// The wakers that one call of `get_next_wakeup(now)` fires: each entry that
/// was pending and is due at `now` fires once, the waker last handed to its
/// sleep, and no other waker fires.
pub open spec fn wakeup_fires(
    pre: SleepersView,
    sources: Map<usize, std::task::Waker>,
    now: u128,
    fresh: Seq<(usize, std::task::Waker)>,
) -> bool {
    fires_from(pre, sources, now, 0, fresh)
}

/// Fires the waker taken out of the entry under `key`, and records the firing
/// by the key and the waker that it was cloned from.
fn fire(
    waker: std::task::Waker,
    key: usize,
    source: Ghost<std::task::Waker>,
    fired: &mut Ghost<Seq<(usize, std::task::Waker)>>,
)
    ensures
        final(fired)@ == old(fired)@.push((key, source@)),
{
    proof {
        fired@ = fired@.push((key, source@));
    }
    wake(waker);
}

/// Stores in `stored` a clone of `given`, the waker handed to a poll of the
/// sleep registered under `key`, and records it as that key's source.
fn refresh_waker(
    stored: &mut std::task::Waker,
    given: &std::task::Waker,
    key: usize,
    sources: &mut Ghost<Map<usize, std::task::Waker>>,
)
    ensures
        final(sources)@ == old(sources)@.insert(key, *given),
{
    proof {
        sources@ = sources@.insert(key, *given);
    }
    clone_waker_into(stored, given);
}

/// A due sleep wakes the task that polled it last, once: after a sleep with
/// `deadline` is first polled with `first` and polled again with `latest`
/// while pending, a consultation at `deadline` or later fires exactly one
/// waker for its entry, the one cloned from `latest`, and marks it done.
pub proof fn lemma_latest_poller_woken(
    s0: SleepersView,
    src0: Map<usize, std::task::Waker>,
    deadline: u128,
    first: std::task::Waker,
    key: usize,
    s1: SleepersView,
    src1: Map<usize, std::task::Waker>,
    latest: std::task::Waker,
    s2: SleepersView,
    src2: Map<usize, std::task::Waker>,
    now: u128,
    s3: SleepersView,
    next: Option<u128>,
    fresh: Seq<(usize, std::task::Waker)>,
)
    requires
        poll_post(SleepState::Pending(deadline), s0, false, SleepState::Polled(key), s1),
        src1 == src0.insert(key, first),
        poll_post(SleepState::Polled(key), s1, false, SleepState::Polled(key), s2),
        src2 == src1.insert(key, latest),
        deadline <= now,
        wakeup_post(s2, now, s3, next),
        wakeup_fires(s2, src2, now, fresh),
    ensures
        s3.entries[key].done,
        exists|i: int| 0 <= i < fresh.len() && fresh[i] == (key, latest),
        forall|i: int| 0 <= i < fresh.len() && #[trigger] fresh[i].0 == key ==> fresh[i] == (key, latest),
        forall|i: int, j: int| 0 <= i < fresh.len() && 0 <= j < fresh.len() && #[trigger] fresh[i].0 == key
            && #[trigger] fresh[j].0 == key ==> i == j,
{
    let t = Timer { deadline, key };
    assert(s1.timers.to_multiset().count(t) > 0) by {
        broadcast use vstd::multiset::group_multiset_axioms;
    }
    vstd::seq_lib::to_multiset_contains(s2.timers, t);
    let i = choose|i: int| 0 <= i < s2.timers.len() && s2.timers[i] == t;
    assert(s2.timers[i].key == key);
    assert(is_due_from(s2.timers, 0, s2.entries, now, key));
    assert(s2.entries.contains_key(key) && !s2.entries[key].done);
    let j = choose|j: int| 0 <= j < fresh.len() && #[trigger] fresh[j].0 == key;
    assert(fresh[j] == (key, latest));
}

/// The firings seen from `from` on are those seen from `to` on, when no live
/// timer between them is due.
proof fn lemma_fires_from_same(
    pre: SleepersView,
    sources: Map<usize, std::task::Waker>,
    now: u128,
    from: int,
    to: int,
    fresh: Seq<(usize, std::task::Waker)>,
)
    requires
        fires_from(pre, sources, now, from, fresh),
        forall|k: usize| is_due_from(pre.timers, to, pre.entries, now, k)
            == is_due_from(pre.timers, from, pre.entries, now, k),
    ensures
        fires_from(pre, sources, now, to, fresh),
{
}

/// One timer, at position `len - 1`, taken out of the queue: the firings
/// seen from `len - 1` on are those from `len` on, and one more when the
/// timer was live, due, and its entry still pending.
proof fn lemma_fires_step(
    pre: SleepersView,
    sources: Map<usize, std::task::Waker>,
    now: u128,
    len: int,
    fresh: Seq<(usize, std::task::Waker)>,
    fresh2: Seq<(usize, std::task::Waker)>,
    timer: Timer,
    was_done: bool,
)
    requires
        0 < len <= pre.timers.len(),
        pre.timers[len - 1] == timer,
        fires_from(pre, sources, now, len, fresh),
        pre.entries.contains_key(timer.key) ==> was_done == (pre.entries[timer.key].done
            || is_due_from(pre.timers, len, pre.entries, now, timer.key)),
        fresh2 == fresh || (fresh2 == fresh.push((timer.key, sources[timer.key]))
            && is_live(pre.entries, timer) && timer.deadline <= now && !was_done),
        fresh2 == fresh ==> !(is_live(pre.entries, timer) && timer.deadline <= now && !was_done),
    ensures
        fires_from(pre, sources, now, len - 1, fresh2),
{
    assert forall|k: usize| is_due_from(pre.timers, len, pre.entries, now, k)
        implies is_due_from(pre.timers, len - 1, pre.entries, now, k) by {
        let i = choose|i: int| len <= i < pre.timers.len() && #[trigger] pre.timers[i].key == k
            && is_live(pre.entries, pre.timers[i]) && pre.timers[i].deadline <= now;
        assert(len - 1 <= i);
    }
    assert forall|k: usize| #[trigger] pre.entries.contains_key(k) && !pre.entries[k].done
        && is_due_from(pre.timers, len - 1, pre.entries, now, k)
        implies exists|i: int| 0 <= i < fresh2.len() && #[trigger] fresh2[i].0 == k by {
        if is_due_from(pre.timers, len, pre.entries, now, k) {
            let i = choose|i: int| 0 <= i < fresh.len() && #[trigger] fresh[i].0 == k;
            assert(fresh2[i] == fresh[i]);
        } else {
            let i = choose|i: int| len - 1 <= i < pre.timers.len() && #[trigger] pre.timers[i].key == k
                && is_live(pre.entries, pre.timers[i]) && pre.timers[i].deadline <= now;
            assert(i == len - 1);
            assert(fresh2 != fresh);
            assert(fresh2[fresh.len() as int].0 == k);
        }
    }
    if fresh2 != fresh {
        let k = timer.key;
        assert(is_due_from(pre.timers, len - 1, pre.entries, now, k));
        assert forall|i: int| 0 <= i < fresh.len() implies #[trigger] fresh[i].0 != k by {
            assert(is_due_from(pre.timers, len, pre.entries, now, fresh[i].0));
        }
        assert forall|i: int, j: int| 0 <= i < j < fresh2.len() implies #[trigger] fresh2[i].0 != #[trigger] fresh2[j].0 by {
            if j == fresh.len() {
                assert(fresh2[i] == fresh[i]);
            } else {
                assert(fresh2[i] == fresh[i]);
                assert(fresh2[j] == fresh[j]);
            }
        }
        assert forall|i: int| 0 <= i < fresh2.len() implies {
            &&& pre.entries.contains_key(#[trigger] fresh2[i].0)
            &&& !pre.entries[fresh2[i].0].done
            &&& is_due_from(pre.timers, len - 1, pre.entries, now, fresh2[i].0)
            &&& fresh2[i].1 == sources[fresh2[i].0]
        } by {
            if i < fresh.len() {
                assert(fresh2[i] == fresh[i]);
            }
        }
    }
}

impl View for Sleepers {
    type V = SleepersView;

    closed spec fn view(&self) -> SleepersView {
        SleepersView { timers: self.timers@, entries: sleep_entries(self.entries) }
    }
}

impl Sleepers {
    pub open spec fn wf(&self) -> bool {
        self@.wf()
    }

    /// For each registered key, the waker last handed to a poll of its sleep;
    /// its entry holds a clone of that waker, which wakes the same task.
    pub closed spec fn waker_sources(&self) -> Map<usize, std::task::Waker> {
        self.sources@
    }

    /// The wakers fired so far, in order: each by the key of its entry and
    /// the waker that it was cloned from.
    pub closed spec fn fired(&self) -> Seq<(usize, std::task::Waker)> {
        self.fired@
    }

    /// No timers and no entries.
    pub fn new() -> (s: Self)
        ensures
            s.wf(),
            s@.timers == Seq::<Timer>::empty(),
            s@.entries == Map::<usize, EntryView>::empty(),
            s.fired() == Seq::<(usize, std::task::Waker)>::empty(),
    {
        Sleepers {
            timers: TimerQueue::new(),
            entries: new_entry_slab(),
            sources: Ghost(Map::empty()),
            fired: Ghost(Seq::empty()),
        }
    }

    /// Whether an entry is registered under `key`.
    pub fn has_entry(&self, key: usize) -> (present: bool)
        ensures
            present == self@.entries.contains_key(key),
    {
        get_entry(&self.entries, key).is_some()
    }

    /// For the event loop: the next time to wake up at.
    ///
    /// - Finds the next live timer, soonest in the future, and answers its
    ///   deadline; none when no live timer lies in the future.
    /// - Marks done every sleep whose live timer is due at `now` (its deadline
    ///   is `now` or earlier), waking the task that waits on it.
    /// - Drops the timers left over from entries that are gone, up to the
    ///   answer.
    pub fn get_next_wakeup(&mut self, now: u128) -> (next: Option<u128>)
        ensures
            old(self).wf(),
            final(self).wf(),
            wakeup_post(old(self)@, now, final(self)@, next),
            match next {
                Some(d) => old(self)@.is_next_wakeup(now, d),
                None => !old(self)@.has_future_timer(now),
            },
            final(self).waker_sources() == old(self).waker_sources(),
            old(self).fired().len() <= final(self).fired().len(),
            final(self).fired().take(old(self).fired().len() as int) == old(self).fired(),
            wakeup_fires(
                old(self)@,
                old(self).waker_sources(),
                now,
                final(self).fired().skip(old(self).fired().len() as int),
            ),
    {
        let ghost pre = self@;
        let ghost sources = self.sources@;
        let ghost fired0 = self.fired@;
        // Any look at the queue brings in its order.
        let _ = self.timers.len();
        loop
            invariant
                pre == old(self)@,
                pre.wf(),
                self@.timers.len() <= pre.timers.len(),
                self@.timers == pre.timers.take(self@.timers.len() as int),
                forall|i: int| self@.timers.len() <= i < pre.timers.len()
                    ==> !is_live(pre.entries, #[trigger] pre.timers[i]) || pre.timers[i].deadline <= now,
                self@.entries.dom() == pre.entries.dom(),
                forall|k: usize| #[trigger] pre.entries.contains_key(k) ==> self@.entries[k] == (EntryView {
                    deadline: pre.entries[k].deadline,
                    done: pre.entries[k].done || is_due_from(pre.timers, self@.timers.len() as int, pre.entries, now, k),
                }),
                self.sources@ == sources,
                sources == old(self).waker_sources(),
                fired0 == old(self).fired(),
                fired0.len() <= self.fired@.len(),
                self.fired@.take(fired0.len() as int) == fired0,
                fires_from(pre, sources, now, self@.timers.len() as int, self.fired@.skip(fired0.len() as int)),
            decreases self@.timers.len(),
        {
            let ghost mid = self@;
            let ghost len = self@.timers.len() as int;
            let ghost fresh = self.fired@.skip(fired0.len() as int);
            let timer = match self.timers.peek() {
                Some(timer) => timer,
                None => {
                    proof {
                        assert(!pre.has_future_timer(now));
                    }
                    return None;
                },
            };
            match get_entry_mut(&mut self.entries, timer.key) {
                Some(entry) => {
                    if entry.deadline != timer.deadline {
                    } else if now < timer.deadline {
                        proof {
                            lemma_front_is_next(pre, mid, now);
                            assert(mid.entries.insert(timer.key, mid.entries[timer.key]) =~= mid.entries);
                            lemma_fires_from_same(pre, sources, now, len, 0, fresh);
                        }
                        return Some(timer.deadline);
                    } else {
                        let mut state = EntryState::Done;
                        core::mem::swap(&mut entry.state, &mut state);
                        if let EntryState::Pending(waker) = state {
                            fire(waker, timer.key, Ghost(sources[timer.key]), &mut self.fired);
                        }
                    }
                },
                None => {},
            }
            self.timers.pop();
            proof {
                assert(pre.timers[len - 1] == timer);
                let fresh2 = self.fired@.skip(fired0.len() as int);
                if fresh2 != fresh {
                    assert(fresh2 =~= fresh.push((timer.key, sources[timer.key])));
                    assert(is_live(pre.entries, timer) && timer.deadline <= now);
                    assert(!mid.entries[timer.key].done);
                }
                lemma_fires_step(pre, sources, now, len, fresh, fresh2, timer, mid.entries[timer.key].done);
                assert forall|k: usize| #[trigger] pre.entries.contains_key(k) implies self@.entries[k] == (EntryView {
                    deadline: pre.entries[k].deadline,
                    done: pre.entries[k].done || is_due_from(pre.timers, len - 1, pre.entries, now, k),
                }) by {
                    if is_due_from(pre.timers, len - 1, pre.entries, now, k) && !is_due_from(pre.timers, len, pre.entries, now, k) {
                        let i = choose|i: int| len - 1 <= i < pre.timers.len() && #[trigger] pre.timers[i].key == k
                            && is_live(pre.entries, pre.timers[i]) && pre.timers[i].deadline <= now;
                        assert(i == len - 1);
                    }
                    if is_due_from(pre.timers, len, pre.entries, now, k) {
                        let i = choose|i: int| len <= i < pre.timers.len() && #[trigger] pre.timers[i].key == k
                            && is_live(pre.entries, pre.timers[i]) && pre.timers[i].deadline <= now;
                        assert(len - 1 <= i);
                    }
                }
                assert(self@.timers =~= pre.timers.take(len - 1));
            }
        }
    }
}
/// Where a sleep stands: not yet polled, with the deadline it waits for;
/// registered under a key of the sleepers' entries; or complete, with the
/// deadline it waited for.
#[derive(Clone, Copy)]
pub enum SleepState {
    Pending(u128),
    Polled(usize),
    Completed(u128),
}

/// The deadline of a sleep in the given state: its own before the first
/// poll and after completion, the one of its entry in between.
pub open spec fn sleep_deadline(state: SleepState, entries: Map<usize, EntryView>) -> u128 {
    match state {
        SleepState::Pending(deadline) => deadline,
        SleepState::Polled(key) => entries[key].deadline,
        SleepState::Completed(deadline) => deadline,
    }
}

/// The entry that a sleep in the given state needs, if registered, is there.
pub open spec fn entry_present(state: SleepState, entries: Map<usize, EntryView>) -> bool {
    match state {
        SleepState::Polled(key) => entries.contains_key(key),
        _ => true,
    }
}

/// What one poll of a sleep in state `pre_state` does to the sleepers, from
/// `pre` to `post`, answering `ready` and leaving the sleep in `post_state`:
/// - the first poll registers a fresh entry with the deadline, not done, and
///   a timer for it, and the sleep is not ready;
/// - a poll of a registered sleep is ready exactly when its entry is done; it
///   then releases the entry and the sleep is complete; otherwise nothing
///   that proofs see changes;
/// - a poll of a complete sleep is ready and changes nothing.
pub open spec fn poll_post(
    pre_state: SleepState,
    pre: SleepersView,
    ready: bool,
    post_state: SleepState,
    post: SleepersView,
) -> bool {
    match pre_state {
        SleepState::Pending(deadline) => {
            &&& !ready
            &&& post_state matches SleepState::Polled(key)
            &&& !pre.entries.contains_key(key)
            &&& post.entries == pre.entries.insert(key, EntryView { deadline, done: false })
            &&& post.timers.to_multiset() == pre.timers.to_multiset().insert(Timer { deadline, key })
        },
        SleepState::Polled(key) => {
            &&& ready == pre.entries[key].done
            &&& post.timers == pre.timers
            &&& if ready {
                &&& post_state == SleepState::Completed(pre.entries[key].deadline)
                &&& post.entries == pre.entries.remove(key)
            } else {
                &&& post_state == pre_state
                &&& post.entries == pre.entries
            }
        },
        SleepState::Completed(_) => {
            &&& ready
            &&& post_state == pre_state
            &&& post == pre
        },
    }
}

/// What giving up a sleep in `state` does to the sleepers: a registered
/// sleep releases its entry; nothing else changes.
pub open spec fn release_post(state: SleepState, pre: SleepersView, post: SleepersView) -> bool {
    &&& post.timers == pre.timers
    &&& post.entries == match state {
        SleepState::Polled(key) => pre.entries.remove(key),
        _ => pre.entries,
    }
}

/// A sleep: completes once the runtime has seen its deadline pass.
pub struct Sleep {
    state: SleepState,
}

impl View for Sleep {
    type V = SleepState;

    closed spec fn view(&self) -> SleepState {
        self.state
    }
}

impl Sleep {
    /// The key of the entry this sleep is registered under, while it is.
    pub fn registered_key(&self) -> (key: Option<usize>)
        ensures
            key == match self@ {
                SleepState::Polled(k) => Some(k),
                _ => None::<usize>,
            },
    {
        match self.state {
            SleepState::Polled(key) => Some(key),
            _ => None,
        }
    }

    /// The deadline this sleep waits for. While the sleep is registered its
    /// entry must be there.
    pub fn deadline(&self, sleepers: &Sleepers) -> (deadline: u128)
        requires
            entry_present(self@, sleepers@.entries),
        ensures
            deadline == sleep_deadline(self@, sleepers@.entries),
    {
        match self.state {
            SleepState::Pending(deadline) => deadline,
            SleepState::Polled(key) => {
                let entry = get_entry(&sleepers.entries, key);
                entry.unwrap().deadline
            },
            SleepState::Completed(deadline) => deadline,
        }
    }

    /// One poll of the sleep future, on behalf of the task of `waker`.
    /// Answers whether the sleep is complete.
    ///
    /// - On the first poll the sleep registers: a fresh entry with its
    ///   deadline and the task's waker, and a timer for it in the queue.
    /// - Later, while its entry is pending, the entry takes the new waker.
    /// - Once its entry is done, the entry is released and the sleep is
    ///   complete, keeping its deadline; a complete sleep stays complete.
    pub fn poll(&mut self, sleepers: &mut Sleepers, waker: &std::task::Waker) -> (ready: bool)
        requires
            entry_present(old(self)@, old(sleepers)@.entries),
        ensures
            old(sleepers).wf(),
            final(sleepers).wf(),
            poll_post(old(self)@, old(sleepers)@, ready, final(self)@, final(sleepers)@),
            entry_present(final(self)@, final(sleepers)@.entries),
            sleep_deadline(final(self)@, final(sleepers)@.entries) == sleep_deadline(
                old(self)@,
                old(sleepers)@.entries,
            ),
            final(sleepers).fired() == old(sleepers).fired(),
            final(sleepers).waker_sources() == match old(self)@ {
                SleepState::Pending(_) => old(sleepers).waker_sources().insert(
                    final(self)@->Polled_0,
                    *waker,
                ),
                SleepState::Polled(key) => if ready {
                    old(sleepers).waker_sources()
                } else {
                    old(sleepers).waker_sources().insert(key, *waker)
                },
                SleepState::Completed(_) => old(sleepers).waker_sources(),
            },
    {
        // Any look at the queue brings in its order.
        let _ = sleepers.timers.len();
        match self.state {
            SleepState::Pending(deadline) => {
                let entry = Entry { deadline, state: EntryState::Pending(clone_waker(waker)) };
                let key = insert_entry(&mut sleepers.entries, entry);
                proof {
                    sleepers.sources@ = sleepers.sources@.insert(key, *waker);
                }
                sleepers.timers.push(Timer { deadline, key });
                self.state = SleepState::Polled(key);
                false
            },
            SleepState::Polled(key) => {
                let ghost before = sleepers@;
                let finished = {
                    let entry = get_entry_mut(&mut sleepers.entries, key).unwrap();
                    match &mut entry.state {
                        EntryState::Pending(old_waker) => {
                            refresh_waker(old_waker, waker, key, &mut sleepers.sources);
                            false
                        },
                        EntryState::Done => true,
                    }
                };
                proof {
                    assert(before.entries.insert(key, before.entries[key]) =~= before.entries);
                }
                if finished {
                    let entry = remove_entry(&mut sleepers.entries, key);
                    self.state = SleepState::Completed(entry.deadline);
                }
                finished
            },
            SleepState::Completed(_) => true,
        }
    }

    /// Gives the sleep up: a registered sleep releases its entry, so that its
    /// timer is left over and never fires. While registered, its entry must
    /// be there.
    pub fn release(self, sleepers: &mut Sleepers)
        requires
            entry_present(self@, old(sleepers)@.entries),
        ensures
            old(sleepers).wf(),
            final(sleepers).wf(),
            release_post(self@, old(sleepers)@, final(sleepers)@),
            final(sleepers).fired() == old(sleepers).fired(),
            final(sleepers).waker_sources() == old(sleepers).waker_sources(),
    {
        // Any look at the queue brings in its order.
        let _ = sleepers.timers.len();
        match self.state {
            SleepState::Polled(key) => {
                remove_entry(&mut sleepers.entries, key);
            },
            _ => {},
        }
    }
}

impl Runtime {
    /// A sleep that completes once `deadline` has passed.
    pub fn sleep_until(&self, deadline: u128) -> (sleep: Sleep)
        ensures
            sleep@ == SleepState::Pending(deadline),
    {
        Sleep { state: SleepState::Pending(deadline) }
    }

    /// A sleep that completes once `duration` has passed after `now`. The
    /// deadline must fit on the clock.
    pub fn sleep(&self, now: u128, duration: u128) -> (sleep: Sleep)
        requires
            now + duration <= u128::MAX,
        ensures
            sleep@ == SleepState::Pending((now + duration) as u128),
    {
        self.sleep_until(now + duration)
    }
}

} // verus!
