# language_stats

A service that draws an SVG card of the languages used across a GitHub
user's repositories. The logic lives in a library verified with Verus; a
thin Axum server around it does the HTTP, the GitHub calls and the drawing.

## Layout

- `src/` — the verified library:
  - `query.rs`: comma-joined query parameters split into `&`-separated pairs.
  - `stats.rs`: exclude lists (decoding, merging, the exclude cache key),
    applying excludes, and the top-six chart.
  - `ranking.rs`: the chart order (more bytes first, ties by name).
  - `totals.rs`: byte counts per language, a map kept as a list of entries
    with distinct names.
  - `github.rs`: repository listing URLs and paging, per-repository
    languages, and the totals per scope.
  - `cache.rs`: per-user cache, chart variant keys, ETags.
  - `svg.rs`, `colors.rs`, `shapes.rs`: SVG text pieces, the palette, and the
    corner geometry of rounded rectangles.
  - `text.rs`, `sort.rs`: character-level helpers and a stable sort.
- `tests/`: tests of the library.
- `app/`: the server (`main.rs`), the GitHub client, the refresh loop and
  the chart drawing, which works in floating point.

## Running

Set `GITHUB_USERNAME` (and optionally `GITHUB_TOKEN`) and
`ROBOTO_FONT_PATH` to a Roboto Regular TTF, then start the server; it listens
on port 3000 and serves `/languages`.
