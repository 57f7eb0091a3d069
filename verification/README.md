# crityoink

`crityoink --get` downloads the High and Critical CVEs of the NVD REST API
(no API key) into a local JSON database, rebuilding it in full every time.
`crityoink --check inventory.csv` matches a CPE inventory against that
database, writes an HTML report and exits with 2 when something matched.
The inventory never leaves the machine.

## Layout

- `src/` is the library, written in Verus. Its functions carry contracts
  that Verus proves, except a few small wrappers around outside calls
  (`String::push`, the `csv` reader, `chrono` and `std::time::Instant`),
  whose contracts state what those calls do and are trusted.
  - `text.rs`: character-level helpers (case, trimming, splitting, order).
  - `csv_inv.rs`: reading the inventory CSV into rows (the `csv` crate
    reads the records).
  - `cpe.rs`: CPE fields, version order and ranges, configuration nodes,
    and the matching of an inventory against the CVEs.
  - `db.rs`: the stored CVEs and the database built from them.
  - `html.rs`: the report.
  - `nvd.rs`: the download: URLs, pacing, Retry-After and back-off, the
    retry policy, which CVEs are kept, and the `SyncState` that pages
    through the severity streams.
  - `cli.rs`: which command the flags select, and the exit code.
- `app/` is the program around it: argument parsing, files, the HTTP
  client, JSON, sleeping and the clock.
- `tests/` holds the tests of the library.

Scores are kept in tenths (`9.8` is `98`).
