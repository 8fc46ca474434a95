//! Runs of calls on the sleepers and the sleeps that use them, and the laws
//! that hold along every run.

use vstd::prelude::*;
use crate::sleep::{
    sleep_deadline, SleepersView, SleepState, EntryView, wakeup_post, poll_post, release_post, entry_present,
    lemma_never_fires_early, lemma_wakeup_clears_front,
};

verus! {

/// The state of a run: the sleepers, and each sleep made so far, or none once
/// it has been given up.
pub struct RunState {
    pub sleepers: SleepersView,
    pub sleeps: Seq<Option<SleepState>>,
}

/// One call, as its contract describes it: a consultation
/// `get_next_wakeup(now)` that answered `next`; a new sleep from
/// `sleep_until`; a poll of a sleep that answered `ready`; a sleep given up;
/// a sleep asked for its deadline, which answered `answer`.
pub enum RunStep {
    Wakeup { now: u128, next: Option<u128> },
    Create { deadline: u128 },
    Poll { sleep: usize, ready: bool },
    Release { sleep: usize },
    Deadline { sleep: usize, answer: u128 },
}

/// What `step` does, from `pre` to `post`. A poll or a release is a call
/// whose precondition holds.
pub open spec fn run_step_post(pre: RunState, step: RunStep, post: RunState) -> bool {
    match step {
        RunStep::Wakeup { now, next } => {
            &&& wakeup_post(pre.sleepers, now, post.sleepers, next)
            &&& post.sleeps == pre.sleeps
        },
        RunStep::Create { deadline } => {
            &&& post.sleepers == pre.sleepers
            &&& post.sleeps == pre.sleeps.push(Some(SleepState::Pending(deadline)))
        },
        RunStep::Poll { sleep, ready } => {
            &&& sleep < pre.sleeps.len()
            &&& pre.sleeps[sleep as int] matches Some(state)
            &&& entry_present(state, pre.sleepers.entries)
            &&& post.sleeps.len() == pre.sleeps.len()
            &&& post.sleeps[sleep as int] matches Some(new_state)
            &&& poll_post(state, pre.sleepers, ready, new_state, post.sleepers)
            &&& post.sleeps == pre.sleeps.update(sleep as int, Some(new_state))
        },
        RunStep::Release { sleep } => {
            &&& sleep < pre.sleeps.len()
            &&& pre.sleeps[sleep as int] matches Some(state)
            &&& entry_present(state, pre.sleepers.entries)
            &&& release_post(state, pre.sleepers, post.sleepers)
            &&& post.sleeps == pre.sleeps.update(sleep as int, None)
        },
        RunStep::Deadline { sleep, answer } => {
            &&& sleep < pre.sleeps.len()
            &&& pre.sleeps[sleep as int] matches Some(state)
            &&& entry_present(state, pre.sleepers.entries)
            &&& answer == sleep_deadline(state, pre.sleepers.entries)
            &&& post == pre
        },
    }
}

/// A run from a runtime with no sleeps yet: each state is reached from the
/// one before by its step, and the sleepers are well formed throughout.
pub open spec fn is_run(states: Seq<RunState>, steps: Seq<RunStep>) -> bool {
    &&& states.len() == steps.len() + 1
    &&& states[0].sleeps.len() == 0
    &&& forall|n: int| 0 <= n < states.len() ==> (#[trigger] states[n]).sleepers.wf()
    &&& forall|n: int| 0 <= n < steps.len() ==> run_step_post(states[n], #[trigger] steps[n], states[n + 1])
}

/// The key a sleep is registered under, if it is.
pub open spec fn key_of(sleep: Option<SleepState>) -> Option<usize> {
    match sleep {
        Some(SleepState::Polled(key)) => Some(key),
        _ => None,
    }
}

/// Step `at` is the first poll of sleep `sleep`, made while it waited for
/// `deadline`.
pub open spec fn registered_at(states: Seq<RunState>, steps: Seq<RunStep>, at: int, sleep: int, deadline: u128) -> bool {
    &&& 0 <= at < steps.len()
    &&& steps[at] == RunStep::Poll { sleep: sleep as usize, ready: false }
    &&& states[at].sleeps[sleep] == Some(SleepState::Pending(deadline))
}

/// Some step after `from` and before `to` is a consultation at `deadline` or
/// later.
pub open spec fn woken_between(steps: Seq<RunStep>, from: int, to: int, deadline: u128) -> bool {
    exists|t: int| from < t < to && (#[trigger] steps[t] matches RunStep::Wakeup { now, .. } && deadline <= now)
}

/// What holds at state `n` of a run: every registered sleep has its entry,
/// no two registered sleeps share a key, and each registered sleep was first
/// polled with the deadline its entry carries, its entry being done only if
/// a consultation since was at that deadline or later.
spec fn run_invariant(states: Seq<RunState>, steps: Seq<RunStep>, n: int) -> bool {
    let st = states[n];
    &&& forall|i: int| 0 <= i < st.sleeps.len() && #[trigger] key_of(st.sleeps[i]) is Some
        ==> st.sleepers.entries.contains_key(key_of(st.sleeps[i])->0)
    &&& forall|i: int, j: int| 0 <= i < st.sleeps.len() && 0 <= j < st.sleeps.len() && i != j
        && #[trigger] key_of(st.sleeps[i]) is Some && #[trigger] key_of(st.sleeps[j]) is Some
        ==> key_of(st.sleeps[i]) != key_of(st.sleeps[j])
    &&& forall|i: int| 0 <= i < st.sleeps.len() && #[trigger] key_of(st.sleeps[i]) is Some ==> {
        let entry = st.sleepers.entries[key_of(st.sleeps[i])->0];
        exists|r: int| r < n && #[trigger] registered_at(states, steps, r, i, entry.deadline)
            && (entry.done ==> woken_between(steps, r, n, entry.deadline))
    }
}

proof fn lemma_woken_extends(steps: Seq<RunStep>, from: int, to: int, later: int, deadline: u128)
    requires
        woken_between(steps, from, to, deadline),
        to <= later,
    ensures
        woken_between(steps, from, later, deadline),
{
    let t = choose|t: int| from < t < to && (#[trigger] steps[t] matches RunStep::Wakeup { now, .. } && deadline <= now);
    assert(from < t < later);
}

/// The invariant holds at every state of a run.
proof fn lemma_run_invariant(states: Seq<RunState>, steps: Seq<RunStep>, n: int)
    requires
        is_run(states, steps),
        0 <= n < states.len(),
    ensures
        run_invariant(states, steps, n),
    decreases n,
{
    if n == 0 {
        return;
    }
    let m = n - 1;
    lemma_run_invariant(states, steps, m);
    let pre = states[m];
    let post = states[n];
    let step = steps[m];
    assert(run_step_post(pre, step, post));
    assert(pre.sleepers.wf());
    match step {
        RunStep::Wakeup { now, next } => {
            assert forall|i: int| 0 <= i < post.sleeps.len() && #[trigger] key_of(post.sleeps[i]) is Some implies {
                let entry = post.sleepers.entries[key_of(post.sleeps[i])->0];
                exists|r: int| r < n && #[trigger] registered_at(states, steps, r, i, entry.deadline)
                    && (entry.done ==> woken_between(steps, r, n, entry.deadline))
            } by {
                let k = key_of(pre.sleeps[i])->0;
                assert(key_of(pre.sleeps[i]) is Some);
                let old_entry = pre.sleepers.entries[k];
                let r = choose|r: int| r < m && #[trigger] registered_at(states, steps, r, i, old_entry.deadline)
                    && (old_entry.done ==> woken_between(steps, r, m, old_entry.deadline));
                assert(pre.sleepers.entries.contains_key(k));
                let entry = post.sleepers.entries[k];
                assert(entry.deadline == old_entry.deadline);
                if entry.done {
                    if old_entry.done {
                        lemma_woken_extends(steps, r, m, n, entry.deadline);
                    } else {
                        lemma_never_fires_early(pre.sleepers, now, post.sleepers, next, k);
                        assert(r < m && m < n && (steps[m] matches RunStep::Wakeup { now, .. } && entry.deadline <= now));
                    }
                }
                assert(r < n && registered_at(states, steps, r, i, entry.deadline)
                    && (entry.done ==> woken_between(steps, r, n, entry.deadline)));
            }
        },
        RunStep::Create { deadline } => {
            assert forall|i: int| 0 <= i < pre.sleeps.len() implies post.sleeps[i] == pre.sleeps[i] by {}
            assert(key_of(post.sleeps[pre.sleeps.len() as int]) is None);
            assert forall|i: int| 0 <= i < post.sleeps.len() && #[trigger] key_of(post.sleeps[i]) is Some implies {
                let entry = post.sleepers.entries[key_of(post.sleeps[i])->0];
                exists|r: int| r < n && #[trigger] registered_at(states, steps, r, i, entry.deadline)
                    && (entry.done ==> woken_between(steps, r, n, entry.deadline))
            } by {
                assert(i < pre.sleeps.len());
                assert(key_of(pre.sleeps[i]) is Some);
                let entry = pre.sleepers.entries[key_of(pre.sleeps[i])->0];
                let r = choose|r: int| r < m && #[trigger] registered_at(states, steps, r, i, entry.deadline)
                    && (entry.done ==> woken_between(steps, r, m, entry.deadline));
                if entry.done {
                    lemma_woken_extends(steps, r, m, n, entry.deadline);
                }
            }
        },
        RunStep::Poll { sleep, ready } => {
            let s0 = sleep as int;
            let state = pre.sleeps[s0]->0;
            let new_state = post.sleeps[s0]->0;
            assert forall|i: int| 0 <= i < post.sleeps.len() && i != s0 implies post.sleeps[i] == pre.sleeps[i] by {}
            match state {
                SleepState::Pending(d) => {
                    let k = new_state->Polled_0;
                    assert(key_of(pre.sleeps[s0]) is None);
                    assert forall|i: int| 0 <= i < post.sleeps.len() && i != s0 && #[trigger] key_of(post.sleeps[i]) is Some
                        implies key_of(post.sleeps[i])->0 != k by {
                        assert(key_of(pre.sleeps[i]) is Some);
                    }
                    assert(registered_at(states, steps, m, s0, d));
                    assert(post.sleepers.entries[k] == (EntryView { deadline: d, done: false }));
                    assert forall|i: int| 0 <= i < post.sleeps.len() && #[trigger] key_of(post.sleeps[i]) is Some implies {
                        let entry = post.sleepers.entries[key_of(post.sleeps[i])->0];
                        exists|r: int| r < n && #[trigger] registered_at(states, steps, r, i, entry.deadline)
                            && (entry.done ==> woken_between(steps, r, n, entry.deadline))
                    } by {
                        if i != s0 {
                            assert(key_of(pre.sleeps[i]) is Some);
                            let ki = key_of(pre.sleeps[i])->0;
                            assert(pre.sleepers.entries.contains_key(ki));
                            assert(ki != k);
                            assert(key_of(post.sleeps[i]) == Some(ki));
                            let entry = pre.sleepers.entries[ki];
                            assert(post.sleepers.entries[ki] == entry);
                            let r = choose|r: int| r < m && #[trigger] registered_at(states, steps, r, i, entry.deadline)
                                && (entry.done ==> woken_between(steps, r, m, entry.deadline));
                            if entry.done {
                                lemma_woken_extends(steps, r, m, n, entry.deadline);
                            }
                            assert(r < n && registered_at(states, steps, r, i, entry.deadline)
                                && (entry.done ==> woken_between(steps, r, n, entry.deadline)));
                        } else {
                            assert(key_of(post.sleeps[i]) == Some(k));
                            assert(post.sleepers.entries[k].deadline == d);
                            assert(!post.sleepers.entries[k].done);
                            let entry = post.sleepers.entries[key_of(post.sleeps[i])->0];
                            assert(registered_at(states, steps, m, i, entry.deadline));
                            assert(m < n && registered_at(states, steps, m, i, entry.deadline)
                                && (entry.done ==> woken_between(steps, m, n, entry.deadline)));
                        }
                    }
                },
                SleepState::Polled(k) => {
                    assert(key_of(pre.sleeps[s0]) == Some(k));
                    assert forall|i: int| 0 <= i < post.sleeps.len() && i != s0 && #[trigger] key_of(post.sleeps[i]) is Some
                        implies key_of(post.sleeps[i])->0 != k by {
                        assert(key_of(pre.sleeps[i]) is Some);
                    }
                    assert forall|i: int| 0 <= i < post.sleeps.len() && #[trigger] key_of(post.sleeps[i]) is Some implies {
                        let entry = post.sleepers.entries[key_of(post.sleeps[i])->0];
                        exists|r: int| r < n && #[trigger] registered_at(states, steps, r, i, entry.deadline)
                            && (entry.done ==> woken_between(steps, r, n, entry.deadline))
                    } by {
                        assert(key_of(pre.sleeps[i]) is Some);
                        let ki = key_of(pre.sleeps[i])->0;
                        let entry = pre.sleepers.entries[ki];
                        assert(post.sleepers.entries[ki] == entry);
                        let r = choose|r: int| r < m && #[trigger] registered_at(states, steps, r, i, entry.deadline)
                            && (entry.done ==> woken_between(steps, r, m, entry.deadline));
                        if entry.done {
                            lemma_woken_extends(steps, r, m, n, entry.deadline);
                        }
                    }
                },
                SleepState::Completed(_) => {
                    assert(post.sleeps =~= pre.sleeps);
                    assert forall|i: int| 0 <= i < post.sleeps.len() && #[trigger] key_of(post.sleeps[i]) is Some implies {
                        let entry = post.sleepers.entries[key_of(post.sleeps[i])->0];
                        exists|r: int| r < n && #[trigger] registered_at(states, steps, r, i, entry.deadline)
                            && (entry.done ==> woken_between(steps, r, n, entry.deadline))
                    } by {
                        let entry = pre.sleepers.entries[key_of(pre.sleeps[i])->0];
                        let r = choose|r: int| r < m && #[trigger] registered_at(states, steps, r, i, entry.deadline)
                            && (entry.done ==> woken_between(steps, r, m, entry.deadline));
                        if entry.done {
                            lemma_woken_extends(steps, r, m, n, entry.deadline);
                        }
                    }
                },
            }
        },
        RunStep::Deadline { .. } => {
            assert forall|i: int| 0 <= i < post.sleeps.len() && #[trigger] key_of(post.sleeps[i]) is Some implies {
                let entry = post.sleepers.entries[key_of(post.sleeps[i])->0];
                exists|r: int| r < n && #[trigger] registered_at(states, steps, r, i, entry.deadline)
                    && (entry.done ==> woken_between(steps, r, n, entry.deadline))
            } by {
                let entry = pre.sleepers.entries[key_of(pre.sleeps[i])->0];
                let r = choose|r: int| r < m && #[trigger] registered_at(states, steps, r, i, entry.deadline)
                    && (entry.done ==> woken_between(steps, r, m, entry.deadline));
                if entry.done {
                    lemma_woken_extends(steps, r, m, n, entry.deadline);
                }
            }
        },
        RunStep::Release { sleep } => {
            let s0 = sleep as int;
            let state = pre.sleeps[s0]->0;
            assert forall|i: int| 0 <= i < post.sleeps.len() && i != s0 implies post.sleeps[i] == pre.sleeps[i] by {}
            assert(key_of(post.sleeps[s0]) is None);
            assert forall|i: int| 0 <= i < post.sleeps.len() && #[trigger] key_of(post.sleeps[i]) is Some implies {
                let entry = post.sleepers.entries[key_of(post.sleeps[i])->0];
                exists|r: int| r < n && #[trigger] registered_at(states, steps, r, i, entry.deadline)
                    && (entry.done ==> woken_between(steps, r, n, entry.deadline))
            } by {
                assert(i != s0);
                assert(key_of(pre.sleeps[i]) is Some);
                let ki = key_of(pre.sleeps[i])->0;
                if state is Polled {
                    assert(key_of(pre.sleeps[s0]) is Some);
                    assert(ki != state->Polled_0);
                }
                let entry = pre.sleepers.entries[ki];
                assert(post.sleepers.entries[ki] == entry);
                let r = choose|r: int| r < m && #[trigger] registered_at(states, steps, r, i, entry.deadline)
                    && (entry.done ==> woken_between(steps, r, m, entry.deadline));
                if entry.done {
                    lemma_woken_extends(steps, r, m, n, entry.deadline);
                }
            }
            assert forall|i: int| 0 <= i < post.sleeps.len() && #[trigger] key_of(post.sleeps[i]) is Some
                implies post.sleepers.entries.contains_key(key_of(post.sleeps[i])->0) by {
                assert(key_of(pre.sleeps[i]) is Some);
                if state is Polled {
                    assert(key_of(pre.sleeps[s0]) is Some);
                }
            }
        },
    }
}

/// Along any run, every sleep that is not given up finds the entry it
/// needs, so the precondition of its next poll, of its deadline and of its
/// release always holds; and no two registered sleeps share a key.
pub proof fn lemma_run_keeps_entries(states: Seq<RunState>, steps: Seq<RunStep>, n: int)
    requires
        is_run(states, steps),
        0 <= n < states.len(),
    ensures
        forall|i: int| 0 <= i < states[n].sleeps.len() && (#[trigger] states[n].sleeps[i]) is Some
            ==> entry_present(states[n].sleeps[i]->0, states[n].sleepers.entries),
        forall|i: int, j: int| 0 <= i < states[n].sleeps.len() && 0 <= j < states[n].sleeps.len() && i != j
            && #[trigger] key_of(states[n].sleeps[i]) is Some && #[trigger] key_of(states[n].sleeps[j]) is Some
            ==> key_of(states[n].sleeps[i]) != key_of(states[n].sleeps[j]),
{
    lemma_run_invariant(states, steps, n);
    assert forall|i: int| 0 <= i < states[n].sleeps.len() && (#[trigger] states[n].sleeps[i]) is Some
        implies entry_present(states[n].sleeps[i]->0, states[n].sleepers.entries) by {
        if states[n].sleeps[i]->0 is Polled {
            assert(key_of(states[n].sleeps[i]) is Some);
        }
    }
}

/// A sleep never completes before its deadline, along any run: when a poll
/// at step `at` completes a registered sleep, that sleep was first polled at
/// some earlier step while waiting for a deadline, some consultation
/// `get_next_wakeup(now)` between that first poll and this one had `now` at
/// that deadline or later, and the sleep is left complete with that deadline.
pub proof fn lemma_sleep_never_completes_early(states: Seq<RunState>, steps: Seq<RunStep>, at: int, sleep: usize)
    requires
        is_run(states, steps),
        0 <= at < steps.len(),
        steps[at] == (RunStep::Poll { sleep, ready: true }),
        states[at].sleeps[sleep as int] matches Some(SleepState::Polled(_)),
    ensures
        exists|first: int, deadline: u128| #[trigger] registered_at(states, steps, first, sleep as int, deadline)
            && woken_between(steps, first, at, deadline)
            && states[at + 1].sleeps[sleep as int] == Some(SleepState::Completed(deadline)),
{
    lemma_run_invariant(states, steps, at);
    assert(run_step_post(states[at], steps[at], states[at + 1]));
    let st = states[at];
    let i = sleep as int;
    assert(key_of(st.sleeps[i]) is Some);
    let entry = st.sleepers.entries[key_of(st.sleeps[i])->0];
    let first = choose|r: int| r < at && #[trigger] registered_at(states, steps, r, i, entry.deadline)
        && (entry.done ==> woken_between(steps, r, at, entry.deadline));
    assert(registered_at(states, steps, first, i, entry.deadline));
}

/// The answers of the consultations only move later while no sleep
/// registers: between two consultations at steps `first` and `second` with
/// no first poll of a sleep in between, an empty answer stays empty, and a
/// later answer is never an earlier deadline.
pub proof fn lemma_wakeups_move_later(states: Seq<RunState>, steps: Seq<RunStep>, first: int, second: int)
    requires
        is_run(states, steps),
        0 <= first < second < steps.len(),
        steps[first] is Wakeup,
        steps[second] is Wakeup,
        forall|t: int| first < t < second ==> !(#[trigger] steps[t] matches RunStep::Poll { sleep, .. }
            && states[t].sleeps[sleep as int] matches Some(SleepState::Pending(_))),
    ensures
        steps[first]->next is None ==> steps[second]->next is None,
        steps[first]->next is Some && steps[second]->next is Some
            ==> steps[first]->next->0 <= steps[second]->next->0,
{
    assert(run_step_post(states[first], steps[first], states[first + 1]));
    assert(run_step_post(states[second], steps[second], states[second + 1]));
    assert(states[first].sleepers.wf());
    lemma_wakeup_clears_front(states[first].sleepers, steps[first]->now, states[first + 1].sleepers, steps[first]->next);
    lemma_timers_stay_from(states, steps, first + 1, second, steps[first]->next);
    let mid = states[second].sleepers;
    let post = states[second + 1].sleepers;
    if post.timers.len() > 0 {
        assert(post.timers.last() == mid.timers[post.timers.len() - 1]);
    }
}

/// Along a run, a sleep made at step `created` with `deadline` keeps that
/// deadline at every later state where it has not been given up.
proof fn lemma_deadline_along_run(
    states: Seq<RunState>,
    steps: Seq<RunStep>,
    created: int,
    sleep: usize,
    deadline: u128,
    n: int,
)
    requires
        is_run(states, steps),
        0 <= created < n < states.len(),
        steps[created] == (RunStep::Create { deadline }),
        states[created].sleeps.len() == sleep,
    ensures
        sleep < states[n].sleeps.len(),
        states[n].sleeps[sleep as int] is Some ==> sleep_deadline(
            states[n].sleeps[sleep as int]->0,
            states[n].sleepers.entries,
        ) == deadline,
    decreases n,
{
    let m = n - 1;
    let i = sleep as int;
    assert(run_step_post(states[m], steps[m], states[n]));
    if m == created {
        assert(states[n].sleeps[i] == Some(SleepState::Pending(deadline)));
        return;
    }
    lemma_deadline_along_run(states, steps, created, sleep, deadline, m);
    lemma_run_keeps_entries(states, steps, m);
    let pre = states[m];
    let post = states[n];
    if post.sleeps[i] is Some {
        match steps[m] {
            RunStep::Wakeup { .. } => {
                if pre.sleeps[i]->0 is Polled {
                    assert(pre.sleepers.entries.contains_key(pre.sleeps[i]->0->Polled_0));
                }
            },
            RunStep::Create { .. } => {
                assert(post.sleeps[i] == pre.sleeps[i]);
            },
            RunStep::Poll { sleep: j, .. } => {
                if j != sleep {
                    assert(post.sleeps[i] == pre.sleeps[i]);
                    if pre.sleeps[i]->0 is Polled {
                        let k = pre.sleeps[i]->0->Polled_0;
                        assert(pre.sleeps[i] is Some);
                        assert(pre.sleepers.entries.contains_key(k));
                        if pre.sleeps[j as int]->0 is Polled {
                            assert(key_of(pre.sleeps[i]) is Some);
                            assert(key_of(pre.sleeps[j as int]) is Some);
                            assert(k != pre.sleeps[j as int]->0->Polled_0);
                        }
                        assert(post.sleepers.entries[k] == pre.sleepers.entries[k]);
                    }
                }
            },
            RunStep::Release { sleep: j } => {
                assert(j != sleep);
                assert(post.sleeps[i] == pre.sleeps[i]);
                if pre.sleeps[i]->0 is Polled {
                    let k = pre.sleeps[i]->0->Polled_0;
                    assert(pre.sleeps[i] is Some);
                    if pre.sleeps[j as int]->0 is Polled {
                        assert(key_of(pre.sleeps[i]) is Some);
                        assert(key_of(pre.sleeps[j as int]) is Some);
                        assert(k != pre.sleeps[j as int]->0->Polled_0);
                    }
                    assert(post.sleepers.entries[k] == pre.sleepers.entries[k]);
                }
            },
            RunStep::Deadline { .. } => {},
        }
    }
}

/// A sleep reports the deadline it was made with: along any run, when a
/// sleep made at step `created` with `deadline` is asked for its deadline at
/// a later step, whether before its first poll, while registered, after its
/// entry fired or after it completed, the answer is `deadline`.
pub proof fn lemma_deadline_is_the_one_asked_for(
    states: Seq<RunState>,
    steps: Seq<RunStep>,
    created: int,
    at: int,
    sleep: usize,
    deadline: u128,
    answer: u128,
)
    requires
        is_run(states, steps),
        0 <= created < at < steps.len(),
        steps[created] == (RunStep::Create { deadline }),
        states[created].sleeps.len() == sleep,
        steps[at] == (RunStep::Deadline { sleep, answer }),
    ensures
        answer == deadline,
{
    lemma_deadline_along_run(states, steps, created, sleep, deadline, at);
    assert(run_step_post(states[at], steps[at], states[at + 1]));
}

/// The timers are all due at `bound` or later, or there are none when there
/// is no bound.
spec fn timers_from(timers: Seq<crate::sleep::Timer>, bound: Option<u128>) -> bool {
    match bound {
        None => timers.len() == 0,
        Some(d) => forall|i: int| 0 <= i < timers.len() ==> d <= #[trigger] timers[i].deadline,
    }
}

/// Without a first poll of a sleep, no timer comes into the queue: a bound
/// on the queued deadlines that holds at state `from` still holds at `to`.
proof fn lemma_timers_stay_from(states: Seq<RunState>, steps: Seq<RunStep>, from: int, to: int, bound: Option<u128>)
    requires
        is_run(states, steps),
        0 <= from <= to < states.len(),
        timers_from(states[from].sleepers.timers, bound),
        forall|t: int| from <= t < to ==> !(#[trigger] steps[t] matches RunStep::Poll { sleep, .. }
            && states[t].sleeps[sleep as int] matches Some(SleepState::Pending(_))),
    ensures
        timers_from(states[to].sleepers.timers, bound),
    decreases to - from,
{
    if from < to {
        lemma_timers_stay_from(states, steps, from, to - 1, bound);
        let t = to - 1;
        let pre = states[t].sleepers.timers;
        let post = states[to].sleepers.timers;
        assert(run_step_post(states[t], steps[t], states[to]));
        match steps[t] {
            RunStep::Wakeup { .. } => {
                assert forall|i: int| 0 <= i < post.len() implies post[i] == pre[i] by {}
                if bound is None {
                    assert(post.len() == 0);
                }
            },
            _ => {
                assert(post == pre);
            },
        }
    }
}

} // verus!
