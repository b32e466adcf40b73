# fuchu

A small asynchronous runtime: an executor thread that polls tasks and a
reactor thread that wakes them on I/O readiness and timer expiry.

- `src/` is the verified library: the reactor's timer queue
  (`timer_queue`), its request protocol and readiness bookkeeping
  (`reactor`), the reactor's loop as a sequence of passes and the laws
  over whole runs (`iteration`, with map lemmas in `timer_runs`), the state machines of the timer and I/O futures
  (`custom_futures`), and the runtime configuration (`runtime`). Times are
  nanoseconds on the runtime's monotonic clock; wakers are a type parameter.
- `app/` holds the threads, channels (crossbeam), the poller (mio), the task
  and waker plumbing (futures) and the clock, and runs the reactor's loop by
  handing each request, clock reading and readiness event to the library.
- `tests/` exercises the library on concrete values.
