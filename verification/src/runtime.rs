//! The runtime's state and the decisions of its event loop.

use vstd::prelude::*;
use slab::Slab;
use std::task::Waker;
use crate::sleep::{Sleepers, Timer, EntryView, wakeup_post};
use crate::slots::{waker_keys, new_waker_slab, get_waker};
use crate::wakers::wake_by_ref;

verus! {

/// The event token of the runtime's own waker.
pub const BUTLER_WAKER_TOKEN: usize = 0;

/// Event tokens from this one on stand for the I/O wakers, in key order.
pub const EXTERNAL_WAKER_BASE: usize = 1;

/// The key of the I/O waker that an event token stands for; none for the
/// runtime's own token.
pub open spec fn io_key_of(token: usize) -> Option<usize> {
    if token == BUTLER_WAKER_TOKEN {
        None
    } else {
        Some((token - EXTERNAL_WAKER_BASE) as usize)
    }
}

/// The keys of the I/O wakers that the events `tokens` wake, in token order:
/// each token that stands for a key under which a waker is stored.
pub open spec fn woken_keys(tokens: Seq<usize>, stored: Set<usize>) -> Seq<usize>
    decreases tokens.len(),
{
    if tokens.len() == 0 {
        Seq::empty()
    } else {
        let earlier = woken_keys(tokens.drop_last(), stored);
        match io_key_of(tokens.last()) {
            Some(key) => if stored.contains(key) {
                earlier.push(key)
            } else {
                earlier
            },
            None => earlier,
        }
    }
}

/// The key of the I/O waker that an event token stands for: the token less
/// `EXTERNAL_WAKER_BASE`; none for the runtime's own token.
pub fn io_waker_key(token: usize) -> (key: Option<usize>)
    ensures
        key == io_key_of(token),
{
    if token == BUTLER_WAKER_TOKEN {
        None
    } else {
        Some(token - EXTERNAL_WAKER_BASE)
    }
}

/// Wakes the I/O waker stored under `key`, and records the key among those
/// woken.
fn wake_io_waker(waker: &Waker, key: usize, woken: &mut Vec<usize>)
    ensures
        final(woken)@ == old(woken)@.push(key),
{
    wake_by_ref(waker);
    woken.push(key);
}

/// Dispatching two batches of events one after the other wakes what
/// dispatching them together wakes, in the same order.
pub proof fn lemma_woken_keys_concat(first: Seq<usize>, second: Seq<usize>, stored: Set<usize>)
    ensures
        woken_keys(first + second, stored) == woken_keys(first, stored) + woken_keys(second, stored),
    decreases second.len(),
{
    if second.len() == 0 {
        assert(first + second =~= first);
        assert(woken_keys(second, stored) =~= Seq::<usize>::empty());
        assert(woken_keys(first, stored) + Seq::<usize>::empty() =~= woken_keys(first, stored));
    } else {
        let all = first + second;
        assert(all.drop_last() =~= first + second.drop_last());
        assert(all.last() == second.last());
        lemma_woken_keys_concat(first, second.drop_last(), stored);
        let a = woken_keys(first, stored);
        let b = woken_keys(second.drop_last(), stored);
        assert((a + b).push(second.last()) =~= a + b.push(second.last()));
    }
}

/// One event token wakes exactly the I/O waker stored under the key it
/// stands for, the token less `EXTERNAL_WAKER_BASE`, if there is one; the
/// runtime's own token wakes no I/O waker.
pub proof fn lemma_woken_keys_single(token: usize, stored: Set<usize>)
    ensures
        woken_keys(seq![token], stored) == if token != BUTLER_WAKER_TOKEN && stored.contains(
            (token - EXTERNAL_WAKER_BASE) as usize,
        ) {
            seq![(token - EXTERNAL_WAKER_BASE) as usize]
        } else {
            Seq::<usize>::empty()
        },
{
    assert(seq![token].drop_last() =~= Seq::<usize>::empty());
    assert(woken_keys(Seq::<usize>::empty(), stored) == Seq::<usize>::empty());
    assert(Seq::<usize>::empty().push((token - EXTERNAL_WAKER_BASE) as usize) =~= seq![(token - EXTERNAL_WAKER_BASE) as usize]);
}

/// Every key the events wake has a waker stored under it, and each token
/// wakes at most one waker: no more keys are woken than there are tokens.
pub proof fn lemma_woken_keys_stored(tokens: Seq<usize>, stored: Set<usize>)
    ensures
        woken_keys(tokens, stored).len() <= tokens.len(),
        forall|i: int| 0 <= i < woken_keys(tokens, stored).len() ==> stored.contains(
            #[trigger] woken_keys(tokens, stored)[i],
        ),
    decreases tokens.len(),
{
    if tokens.len() > 0 {
        lemma_woken_keys_stored(tokens.drop_last(), stored);
    }
}

/// How a wait for I/O events failed.
#[derive(Clone, Copy)]
pub enum PollFailure {
    TimedOut,
    Interrupted,
    Other,
}

/// Whether a failed wait for events ends the event loop with the error: a
/// timeout or an interruption only means that the loop goes round again.
pub fn poll_failure_is_fatal(failure: PollFailure) -> (fatal: bool)
    ensures
        fatal == (failure is Other),
{
    match failure {
        PollFailure::TimedOut => false,
        PollFailure::Interrupted => false,
        PollFailure::Other => true,
    }
}

/// Whether the work that `todo` stands in for has been written. It has not,
/// and `todo` has no value to give back in its place.
pub open spec fn placeholder_filled() -> bool {
    false
}

/// The placeholder for work that is not written: it has nothing to give
/// back, so it may only be reached once the work exists.
pub fn todo<T>() -> T
    requires
        placeholder_filled(),
{
    vstd::pervasive::unreached()
}

/// The state of the runtime that its futures and its event loop share: the
/// sleepers, and the wakers of the tasks waiting on I/O, by key.
pub struct Runtime {
    pub sleepers: Sleepers,
    pub io_wakers: Slab<Waker>,
}

impl Runtime {
    /// No sleepers and no I/O wakers.
    pub fn new() -> (rt: Self)
        ensures
            rt.sleepers.wf(),
            rt.sleepers@.timers == Seq::<Timer>::empty(),
            rt.sleepers@.entries == Map::<usize, EntryView>::empty(),
            waker_keys(rt.io_wakers) == Set::<usize>::empty(),
    {
        Runtime { sleepers: Sleepers::new(), io_wakers: new_waker_slab() }
    }

    /// How long the event loop may wait for I/O at `now`: until the next
    /// wakeup of the sleepers, or without limit when there is none. Consults
    /// the sleepers with `get_next_wakeup`, which fires the due sleeps.
    pub fn next_timeout(&mut self, now: u128) -> (timeout: Option<u128>)
        ensures
            old(self).sleepers.wf(),
            final(self).sleepers.wf(),
            final(self).io_wakers == old(self).io_wakers,
            wakeup_post(
                old(self).sleepers@,
                now,
                final(self).sleepers@,
                match timeout {
                    Some(t) => Some((now + t) as u128),
                    None => None,
                },
            ),
            match timeout {
                Some(t) => 0 < t && now + t <= u128::MAX,
                None => true,
            },
    {
        let deadline = self.sleepers.get_next_wakeup(now);
        match deadline {
            Some(d) => Some(d - now),
            None => None,
        }
    }

    /// Hands out the events that a wait delivered, by token: the runtime's own
    /// token, which its waker sends when a task is woken, ends the wait so that
    /// the task is polled again; any other token wakes the I/O waker stored
    /// under the key that the token stands for, if there is one. Answers
    /// whether the loop is idle after the events, and the keys of the wakers
    /// it woke, in the order of the tokens.
    pub fn dispatch_events(&self, tokens: &Vec<usize>, idle: bool) -> (outcome: (bool, Vec<usize>))
        ensures
            outcome.0 == (idle && !tokens@.contains(BUTLER_WAKER_TOKEN)),
            outcome.1@ == woken_keys(tokens@, waker_keys(self.io_wakers)),
    {
        let mut still_idle = idle;
        let mut woken: Vec<usize> = Vec::new();
        for i in 0..tokens.len()
            invariant
                still_idle == (idle && !exists|j: int| 0 <= j < i && tokens@[j] == BUTLER_WAKER_TOKEN),
                woken@ == woken_keys(tokens@.take(i as int), waker_keys(self.io_wakers)),
        {
            let token = tokens[i];
            proof {
                assert(tokens@.take(i + 1).drop_last() =~= tokens@.take(i as int));
                assert(tokens@.take(i + 1).last() == token);
            }
            match io_waker_key(token) {
                None => {
                    still_idle = false;
                },
                Some(key) => {
                    match get_waker(&self.io_wakers, key) {
                        Some(waker) => {
                            wake_io_waker(waker, key, &mut woken);
                        },
                        None => {},
                    }
                },
            }
        }
        proof {
            assert(tokens@.take(tokens@.len() as int) =~= tokens@);
            if tokens@.contains(BUTLER_WAKER_TOKEN) {
                let j = choose|j: int| 0 <= j < tokens@.len() && tokens@[j] == BUTLER_WAKER_TOKEN;
            }
        }
        (still_idle, woken)
    }
}

} // verus!
