# smol (verified reactor core)

`src/` is a Verus library: the timer bookkeeping and wake-up decisions of an async reactor.

- `timer_set` — timers kept in firing order (deadline, then id) in a sorted vector; its view
  is a map from keys to wakers, and insert, remove, split and first-key are proved against it.
- `op_queue` — timer operations, and crossbeam's bounded `ArrayQueue` behind trusted wrappers.
- `reactor` — queued registrations and removals, firing of due timers, the delay until the next
  timer, and the two halves of processing events; laws about these are proof functions there.
- `io_event` — when a notification must signal the reactor, and what a clear reports.
- `async_handle` — an I/O handle owned from creation until unwrapped.

Time is counted in clock ticks (nanoseconds) passed in as `now`. Firing hands back the wakers
of the timers it takes out, earliest first, and the caller wakes them.

The timer map is not std's `BTreeMap`: vstd specifies its insert, remove and keys, but not
`split_off` nor an ordered first key, which firing needs. No `BTreeMap` with a trusted
`split_off` was tried; the map is a sorted vector instead, whose invariant holds what the
`BTreeMap` gave: each key at most once, in order.

`app/` holds what cannot be verified: sockets and their async I/O, the proactor, the global
reactor and its locks, the clock, and the channel of the timer event.
