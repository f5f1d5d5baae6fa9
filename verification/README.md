# inspect_core

Entity-level review of code changes. Given a diff, the library tells which
functions, types and other entities changed, classifies each change, looks up
what depends on it, and returns the reviews ranked by risk and grouped by
dependency.

The library in `src/` is verified with Verus; parsing, diffing and the
dependency graph come from `sem-core`.

- `agreement`: what noise and options leave as it is
- `analyze`: from changed files, or a diff and its graph, to a result
- `classify`: which dimensions of an entity a change touches
- `dependents`: the source of the entities that use a changed one
- `diff`, `graph`, `clock`: the calls into `sem-core` and the clock
- `rank`: ordering by score
- `source`, `tree`: which files the graph is built from
- `summary`: counts, groups and edges, kept in step with the reviews
- `text`: strings as sequences of characters
- `types`: the data that all of these share
- `untangle`: groups of changed entities that depend on one another

What counts as noise, as public and as risky is up to the caller, who hands the
library functions that decide it. Scores are floating-point numbers there; the
library orders them by an integer key (`rank::score_key`).

`app/` reads diffs and source trees from git repositories.
