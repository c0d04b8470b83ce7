# kerml_text

The verified core of a KerML/SysML text frontend: the decisions that sit
between parsing, canonical construction and publication of the standard
libraries and of authored projects, stated as Verus contracts over plain
canonical identities.

## Layout

- `src/` — the library, verified by Verus.
  - `ids`, `model`, `table`, `order`, `text`, `comment`, `json` — identities,
    canonical records, small association tables, path order, text, comment
    bodies and JSON values.
  - `digest` — bounded SHA-256 authentication of exactly the bytes consumed.
  - `stage`, `source`, `compile`, `audit` — compilation stages, measured
    work, semantic cache identities, omission of unparsed documents, strict
    frontier selection and the effective audit tally.
  - `project`, `frontier`, `checkpoint`, `retirement` — project path
    bookkeeping with all-or-nothing batches and a revision history that
    refuses stale batches, edit frontiers between
    compilations, source checkpoint authentication and identity retirement.
  - `refinement` — dependency-driven reference refinement rounds.
  - `library`, `corrections`, `bindings` — source maps, reviewed operational
    corrections and accepted binding sources.
  - `publication`, `provenance`, `facade`, `receipt`, `authority` — the
    acceptance gates of a Systems publication and of its persisted facade.
  - `systems` — the first refusals of a Systems library preparation.
- `tests/` — tests run against the compiled library with the real outside
  crates (`sha2`, `uuid`, `serde_json`, `zip`).
- `app/` — I/O, concurrency and serde forms around the library, and the loops
  that interleave its decisions with parsing and preparation.
