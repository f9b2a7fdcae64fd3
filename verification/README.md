# minirt

A small single-threaded async runtime whose decisions are verified with Verus.

- `src/` — the verified library. Each module is a state machine over plain
  values: wakers are named by `u64`, time is counted in ticks.
  - `channel`: bounded multi-producer multi-consumer channel (send/receive
    polls, handle cloning and dropping; first-in first-out over any run of
    operations, and closing laws).
  - `timer`: timers keyed by `(deadline, sequence number)`, the `Timer` and
    `Timeout` futures, firing of due timers.
  - `sleep`: sleep futures and the queue of sleepers ordered by wake time.
  - `task`: task cells (queued, running, pending, ready, closed), waker
    reference counts, join handles, and the executor's ready queues.
  - `runtime`: the id-keyed task table with join states, and a round-robin
    executor.
  - `io`: readiness decisions of socket futures, connect outcome, dispatch
    of poller events to waker slots.
- `app/` — the program: std futures and wakers around the library, the
  `polling` poller, `socket2` sockets, and the demo `main`.
- `tests/` — tests of the library.
