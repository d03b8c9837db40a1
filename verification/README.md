# Directory UI Viewer: the core

The core of a local-first directory explorer: which directories are known, which listings and scans
there are, what they cost, and what is said of them. It is written in Rust and verified with Verus:
the functions in `src/` carry contracts, and the promises that span several functions stand beside
them as public proof functions. Those that hold through any sequence of calls stand in the files
named `history.rs`, in `src/listing/flight.rs` for tasks that are cancelled in the middle of a turn,
and in `src/listing/run.rs` for the whole run of a listing from its start to its last page.

## Layout

- `src/domain/` holds the wire types and their JSON forms, the session controller and its request
  ledger, and the index of directories.
- `src/runtime/` holds budgets, clocks and bounded notifications.
- `src/scheduler/` holds two lanes of resumable tasks and the limit on open handles.
- `src/listing/` holds the cache of listings, the service that owns it, and the task that fills one.
- `src/scan/` holds the resumable measurement of a tree, its service and its task.
- `src/platform/` holds the rules of native directory handles: names, records, identities, mounts.
- `tests/` runs the library on concrete values.
- `app/` is ordinary Rust around the library: threads, locks, serialisation, system calls and the
  desktop shell.

No function in `src/` waits for a lock or performs I/O of its own. Sources of entries are traits;
time, capacities and the answers of channels come from the system, and the contracts hold whatever
they are.
