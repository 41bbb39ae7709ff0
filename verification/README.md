# chronotile

Local usage analytics for opencode databases: the decisions behind the rollup
cache, the read layer and the session browser, as a Verus library with
machine-checked contracts.

- `src/` is the verified library. `agents` normalises agent names; `sources`
  and `db` manage the registered database paths and profile names;
  `cache::migrations` plans forward-only schema upgrades; `cache::ingest`
  decides what each source row contributes and when it stays pending;
  `cache::read` folds usage into rolling quota windows and ranks skills,
  tools and errors; `sessions` and `session_detail` page, nest and cut the
  session listings and transcripts; `pricing` checks the catalog layout and
  orders its rows.
- `app/` is the application around it: SQLite access through rusqlite, file
  I/O, JSON handling, floating-point costs and percentiles, and the blocking
  operations a desktop shell exposes as commands.
- `tests/` exercises the library on concrete values.

The batch counts in `cache::ingest` (`KeyedCounts`) are a `Vec` of entries
with distinct keys rather than a `HashMap`: their keys are made of strings,
and with string keys vstd's `HashMap` specification does not let even the
length after one insert be proved, so the counts could not be stated over it.
