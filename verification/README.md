# rustmatch

Many-pattern matching over UTF-16 text with explicit code-unit coordinates,
written in Verus. A matcher is built once from caller-identified patterns and
reused across inputs; for each pattern and each start position a scan reports
the longest non-empty match beginning there.

## Layout

- `src/` — the verified library.
  - `types`, `error`: identities, spans, UTF-16 text, errors.
  - `predicate`, `case_fold`, `hir`, `parser`: the pattern language and its
    normalized representation.
  - `nfa`: compilation into one automaton per partition.
  - `semantics`: what a scan reports, stated over the automaton.
  - `language`: what an expression matches, runs through the automaton, and
    the laws that connect them (no match is missed; plain-literal sets are
    reported exactly).
  - `closure`, `cache`, `engine`: the scan itself and its state cache.
  - `bits`, `prefilter`, `necessary`: start selection and why it keeps every
    match.
  - `cohort`, `api`: partitions, cohorts, the builder and the matcher.
  - `experimental`: the assertion-prefix specialization.
  - `evidence`: measurement receipts and their comparison gates.
  - `harness`: pattern tables, corpora, order-independent event digests and
    the median of timing samples.
  - `calendar`: proleptic Gregorian dates and UTC clock fields for receipts.
  - `comparison`: the events a `regex` set reports, for comparison runs.
  - `five_hash`: the five-unit candidate kernel over the prefix hash table.
  - `parity`: the adversarial cases on which ordinary and cohort-compiled
    matchers must agree.
  - `report`: the HTML page that summarizes scale receipts.
- `tests/` — tests run against the compiled library.
- `app/` — the command-line front end: file and JSON I/O, timing, processor
  feature detection, the threaded partition runner, and writing the report.

## Supported syntax

Patterns may use the full supported syntax: non-capturing groups, classes,
alternation, greedy quantifiers, line and word assertions, and case folding.
Pattern text and scanned input may hold any UTF-16 code units, not only
ASCII. A quantifier binds to the atom just before it, and counted bounds
above 1000 are refused.
