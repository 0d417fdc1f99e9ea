# epistemos_labs

Small decision kernels whose every answer carries enough evidence to be
replayed, challenged or refused, written in Verus with their behaviour stated
as contracts and proved.

## Layout

- `src/` — the verified library.
  - `belnap` — four-valued evidence aggregation with SHA-256 receipts.
  - `scope` — scoped admission of requests with digests of request and verdict.
  - `kernel` — capability decisions in an FNV-1a hash-linked receipt log.
  - `ladder` — the SHA-256 receipt chain of a confidence ladder.
  - `router` — the SHA-256 receipt chain of a five-signal escalation router.
  - `ledger` — an id-ordered register of weighted-bound entries.
  - `eidos` — retrieval with closed, checkable citations.
  - `schema` — bounded schema repair with a replayable witness.
  - `security` — findings with redacted, replayable evidence.
  - `vault` — recall and reciprocal rank of a note ranking, as exact fractions.
  - `text`, `tokens`, `order`, `collections`, `digest` — shared text,
    tokenisation, stable sorting, ordered set/map and hashing pieces.
- `tests/` — tests of the library.
- `app/` — the demonstration program and the parts that compute with
  floating-point numbers (scores, thresholds, rates and means), which the
  library carries as `f64` bit patterns.
