# rustbook

Small programs, with their logic verified by Verus:

- `quicksort`: in-place quicksort of a slice (sorted result, same elements).
- `minigrep`: line search in a text, case-sensitive or not, and its configuration.
- `fibonacci`, `rectangles`, `counter`: number sequences, areas, a counting iterator.
- `cacher`, `workout`: a memoising cache of a calculation and the workout plan built on it.
- `guessing`: reading a guess the way `str::parse` does, and judging it.
- `http`: choosing the answer to a request, and assembling the response.
- `timers`: the pending timers of a timer service and which are woken when.
- `executor`: the table of started futures of a small executor.
- `threadpool`: worker numbering of a thread pool.

`app/` holds the programs themselves: argument handling, files, terminal,
network, threads, channels and clocks, calling into the library.
