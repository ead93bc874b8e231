# testless

Which tests can observe a change? `testless` parses a repository into a graph
of definitions, tests and imports, finds the definitions that differ between
two revisions by their structure (comments and formatting do not count), walks
the graph backwards to every test that can reach one of them, and prints the
command lines that run those tests.

Whenever a name cannot be resolved the selection widens; when a change cannot
be narrowed at all, everything runs and the exit code says so.

## Layout

- `src/` is the library, verified with [Verus](https://github.com/verus-lang/verus).
  Every function carries its contract, and every `law_*` is a property of the
  library that is proved from those contracts.
  - `text`, `paths`, `names`, `reach`: strings, paths, lists filed under names,
    and reachability.
  - `syntax`, `fingerprint`: syntax trees as plain values, and their hashes.
  - `language`, `draft`, `lang_go`, `lang_java`, `lang_rust`, `lang_ts`,
    `java_index`, `plugins`: what a language tells about a file.
  - `graph`, `indexer`, `cache`, `discover`, `probes`: the index.
  - `gitio`, `diffdef`, `classify`, `config`: from changed files to seeds.
  - `walk`, `report`, `render`, `runner`, `console`: from seeds to selected
    tests, and how they are shown.
  - `bare`, `reformat*`, `rerun`, `soundness`: what holds of all of it
    together. A change of formatting selects nothing; an incremental index is
    the full one; a test that calls a changed definition is selected.
  - `calc`: a small calculator to try selections on.
- `tests/` runs the library on concrete inputs.
- `app/` is the command line: processes, files, the cache's encoding.

The parsers (`tree-sitter` and its grammars), the hash (`blake3`) and the glob
matcher (`globset`) are trusted: the items marked `external_body` state what
the proofs take from them. So are three functions of the standard library that
are given by `assume_specification`: equality of strings, `String::push` and
`char::is_uppercase`.
