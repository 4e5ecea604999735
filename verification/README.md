# clog-core

The engine of Clog, a viewer for log4j2 `PatternLayout` log files, written
in Verus: line indexing, record scanning, pattern compilation and
auto-detection, smart and regex search, the tail state machine, the index
cache format, the viewer's per-file bookkeeping (pages of lines, truncate
windows, the level minimap, markers) and the persisted settings rules.
Verus proves the library's functions against their contracts; the few
calls into `std`, `regex` and `blake3` go through small trusted wrappers
whose contracts are taken on trust and stated in their doc comments.

Layout:

- `src/` — the verified library. Each module states its model as spec
  functions and proves its laws as `law_*` proof functions, among them:
  appending whole lines to an opened file, in one piece or in any number
  of line-ending chunks, gives the records of a fresh index (`viewer`);
  records tile the file by bytes and by lines and open exactly on header
  lines (`record`); compiled patterns are tidy and parsed field ranges lie
  inside their line (`pattern`); every line the first built-in layout
  renders parses back with its level (`wsl_layout`); path normalisation is
  idempotent (`slow_requests`); a cache file reads back what was written
  for the same fingerprint (`idx_cache`); smart search finds the tokens
  whenever they can be placed in order and keeps a placement with the
  smallest gap sum (`smart_optimality`); the tail state machine's idle,
  growth and rotation rules (`tail`); and the update check's cadence,
  snooze and status rules (`settings`).
- `tests/` — the scenarios, run against the compiled library.
- `app/` — the `clog` command line program: file I/O, JSON and
  bincode persistence, logging and the polling loop that drives the tail
  state machine.
