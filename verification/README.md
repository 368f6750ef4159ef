# purify

The engine of a reversible disk-cleanup tool, verified with Verus: it decides
what fills a disk, what is safe to reclaim, where quarantined items go and when
they may come back or be purged, and how loose files are organized. Nothing in
the library touches the disk; the `purify` command line in `app/` does the
reading, moving and storing, and asks the library what to do.

## Layout

- `src/` — the verified library.
  - `model`, `paths`, `text` — scanned entries, a component model of paths
    under either separator rule (`/` only, or `/` and `\` with drive prefixes;
    the command line picks the host's), and the character-level string
    operations everything else is stated over.
  - `safety` — protected system paths that are never touched, on any drive,
    apart from the caches Windows regenerates itself.
  - `rules` — cleanup signatures and their matching rules.
  - `suggest` — the analyzer: first matching signature per entry, de-duplication
    beneath accepted directories, directory sizing, ordering, totals.
  - `usage` — largest consumers under a root, and recursive directory sizes.
  - `organize` — rule-driven plans for tidying files, with collision handling.
  - `quarantine` — the decisions of the reversible quarantine, including the
    all-or-nothing order of its move, record and roll-back steps.
  - `moves` — when a failed rename means a move across volumes.
  - `report` — the lines that present a usage report.
  - `scan`, `mft`, `aligned` — scanning strategies, the MFT traversal, and the
    sector-aligned read buffer.
  - `guardian` — disk-space numbers and recommendations.
  - `format` — human-readable byte counts.
  - `sorting` — the stable insertion order that the sorted outputs follow.
- `tests/` — executable tests of the library.
- `app/` — the command line: file system walks, moves, the SQLite metadata
  store, TOML signature files, NTFS record reading and JSON output.
