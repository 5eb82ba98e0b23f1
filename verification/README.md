# shuttle

A library for testing concurrent code by controlling the schedule of its tasks: the
bookkeeping of which tasks may run, vector clocks, the scheduling strategies (round robin,
random, PCT, POS, uniformly random walks, replay), the compact serialized form of a recorded
schedule, the permit logic of a batch semaphore, simulated time, the annotation recorder's
parsing of stack frames and interning of files and functions, and the decisions a runtime
takes around each step: which task is scheduled next, when the execution has deadlocked or
the scheduler decided nothing, and what follows a task's resumption (finish it, go on, or
stop early on a panic).

The library in `src/` is verified with Verus: each public function carries a contract, and
the laws of the library (the round trip of the schedule encodings, the invariants of the
semaphore and of the set of schedulable tasks, the lattice laws of vector clocks, and others)
are proof functions.

`app/` holds what talks to the process: environment variables, stderr, files, the operating
system's randomness, the panic hook that reports a failing schedule, and the per-task label
map. The coroutines that run the tasks' code are not part of this crate: a runtime that
drives them calls `execution::schedule`, `execution::after_schedule` and
`execution::after_resume` at each step. `tests/` exercises the library on concrete values.
