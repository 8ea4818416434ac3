# runloop

A single-threaded run loop for timed actions and tasks, with the collections
it is built on, verified with Verus.

- `src/binary_heap.rs`: a min-heap of nodes ordered by `u64` keys, in which
  every node records its position, so that a node can be re-keyed or removed
  where it stands.
- `src/linked_list.rs`: doubly linked lists whose nodes live in a shared
  arena (a `Vec`), addressed by position; a node can be unlinked from the
  middle of its list.
- `src/spin_lock.rs`: a lock taken by flipping an atomic flag.
- `src/run_loop/`: the loop itself, as a state machine. The caller performs
  what each `Action` asks for (take a message, read the clock, run a timed
  action, poll a task, wait) and reports the outcome as an `Event`; the loop
  keeps the timed actions in the heap and the tasks in two lists (to run, and
  waiting to be woken), and decides what comes next. Tickets make a waker of
  a task act at most once.
- `app/lib.rs`: the loop of the current thread, driving the state machine
  with an `mpsc` channel, `Instant`, futures and wakers.
