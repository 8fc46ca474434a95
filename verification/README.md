# butler

The core of a small single-threaded async runtime, verified with Verus.

- `src/sleep.rs`: the sleepers registry (a timer queue ordered by deadline and
  a slab of entries) and the sleep futures' state machine: registration on the
  first poll, firing of due timers, completion and release. Its contracts are
  stated over `SleepersView`, and the laws of the timers (a sleep never fires
  early, a registered sleep fires once due, asking twice changes nothing, left
  over timers are cleared) are proof functions there.
- `src/runs.rs`: runs of calls on the sleepers and the sleeps, with the laws
  that hold along every run from a fresh runtime: a live sleep always finds
  its entry, registered sleeps never share a key, a sleep completes only after
  a consultation at its deadline or later, and without new sleeps the answers
  of the consultations only move later.
- `src/runtime.rs`: the runtime state and the decisions of its event loop
  (how long to wait for I/O, which I/O wakers the events wake, which poll
  failures end the loop).
- `src/connect.rs`: how far an outgoing TCP connection has come.
- `src/slots.rs`, `src/wakers.rs`: the trusted interface to the `slab` crate
  and to the standard library's task wakers.
- `app/`: the unverified shell: the `Future` impls, the `mio` poller, the
  clock and the `run` loop, which call into the library for every decision.

Time is counted in nanoseconds (`u128`) since the runtime started.
