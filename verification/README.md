# dduroc_engine

The storage engine of a device journal: events, telemetry and spans go through
bounded queues to one writer, which lays them out in append-only segments, keeps
them within budgets, survives power loss, and accounts for every record it could
not keep.

- `src/` is the engine. Every rule is there with its contract, and Verus proves it:
  batching and block assembly, the growth and sealing of segments, recovery of torn
  ones, rotation, budgets across channels and media, the ceiling on memory, loss
  notices, migrations, epochs and time anchoring, schemas and limits.
- `app/` carries the engine out: files, threads, locks, floating point at the edge.
- `tests/` runs the engine over a medium in memory.

What touches files, clocks or encoded bytes goes through the `Medium` trait. Nothing
is assumed of its answers. `Io` keeps a ghost trace of the questions and answers,
and the contracts speak of that trace; the queues (`queue`), the migration steps
(`migrate::Migrator`) and the commits (`migration_run::Commits`) keep one too.

The laws of the engine are the public proof functions whose names begin with `law_`.
