# hkwatch

A HackerRank contest watcher and the solutions of the challenges it collected,
with their logic verified by Verus.

- `src/` — the verified library.
  - `watcher.rs`: which challenges of a poll are new, the record of seen
    slugs (kept sorted), the report lines, the fetcher's arguments, the
    solver's prompt, and the watch loop's decision on each poll.
  - `text.rs`: decimal rendering, trimming and truncation of strings.
  - one module per challenge: `vault`, `median` (with `fenwick`), `decode`,
    `harvest`, `route` (with `tree`), `rescue`, `life_path`, `resonance`,
    `spell`, `heist`.
- `tests/` — tests on concrete inputs, including the laws that the library
  proves (for example: a slug once recorded is never reported as new).
- `app/` — the `hkwatch` program: argument handling, the environment file,
  the fetcher and solver processes, the JSON files, and a runner for each
  challenge program that reads its input from standard input.
