# DeeBugee

A viewer for structured logs. It follows JSONL files, one JSON object per line, and keeps
the newest events in a bounded store that can be searched, filtered by facets, grouped
and compared run by run.

The library under `src/` is written in Verus: what its functions return and change is
stated in `requires` and `ensures` clauses over mathematical sequences, sets and maps,
and proved. The program under `app/` is ordinary Rust around it: the window, the files,
the network, and everything that is floating-point arithmetic.

## Modules

- `event`, `level`, `schema`, `record`, `json`, `members`, `time`, `number`, `numeral`,
  `natural`: events, how they are read from the members of JSON objects and written to
  records. Floating-point numbers are held by their bits.
- `store`, `index`, `rows`, `facet`, `query`, `search`, `answers`: the bounded store, its
  facet index over compressed bitmaps, the query language, the fuzzy search, and what the
  answers of stores have in common.
- `viewer`, `follow`, `grouping`, `layout`, `describe`, `highlight`, `keys`: what the
  table shows, when it follows the newest event, and how it is told.
- `session`, `bookmark`, `pin`, `scope`, `settings`, `health`: runs and their comparison,
  saved views, pinned events, settings, and what is known of the sources.
- `follower`, `logger`, `update`, `project`, `launch`: how files are followed and
  rotated, updates, project manifests and arguments.
- `text`, `ordered`, `sorting`, `list`, `hash`: what the others are built on.

Laws that span several functions are public proof functions whose names begin with
`lemma_`, beside the functions they are about.

## What is trusted

Calls into other crates stand behind small functions marked
`#[verifier::external_body]`, each with a comment that names the call and says what is
taken for granted of it: RFC 3339 texts and time spans (`chrono`), row sets (`roaring`),
JSON strings (`serde_json`), versions (`semver`), digests (`sha2`), identifiers (`uuid`),
and the Unicode tables of the standard library.
