# TaskerRT scheduling core

An HPC-style batch scheduler as a pure library: no async runtime, no I/O, no wall
clock. Everything under `src/` is verified with Verus; the programs that talk to
a daemon stand in `app/`.

## Layout

```
src/
├── domain/     handles and the arena, jobs and their states, resources, time
├── cluster/    worker slots and what is allocated on them
├── policy/     scoring, ready queues, packing, backfill, preemption, fair-share,
│               dependencies
├── engine/     the lifecycle calls, the cycle, and what they promise together
├── bench.rs    synthetic workloads, one drawn number at a time
├── loadgen.rs  what the load generator measures and when it sends
├── cli.rs      what the command-line client decides before it calls
└── text.rs     the text operations those two need
tests/          ordinary tests against the public interface
app/            the client, the load generator and the benchmark driver
```

Dependencies point inward only: `engine`, `policy`, `cluster`, `domain`.

## Reading the contracts

Each data type has a view (`@`): an arena is a map from live handles to values, a
ready set one map from handles to scores per class, the dependency tracker a map
from arena indices to what is watched there, the accounts a list of ledgers and
factors. A well-formedness predicate `wf` is established by constructors and kept
by every method. Executable functions are specified by what they do to views.

What holds across functions is stated by the public proof functions whose names
begin with `law_`: a cycle never over-commits a slot, never delays its head and
loses no job; a completion wakes exactly the jobs that a scan of every blocked job
would; a failure cancels exactly the jobs that depend on the one that failed; a
removed handle does not resolve again until its slot's generation wraps; a cleared
ready set behaves as a new one; more usage never raises a fair-share factor.

Outside code enters in `domain/deps.rs` (`smallvec`, `bytes`), `policy/sort.rs`
and `text.rs` (the standard library). What is taken on trust there is said in the
comment above each item.
