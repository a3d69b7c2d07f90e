# dagger

A reading of the difference between two snapshots of a code base, laid out for understanding. Each
named thing in either snapshot becomes an occurrence; occurrences of the same thing
are matched into definitions; mentions between them become references, followed
outward from what changed as far as the ripples setting allows; and the result is a
review: the definitions worth reading, the edges between them, the order to read
them in, the groups they are drawn in, and every warning about how the review might
be wrong.

## Layout

- `src/` is the library, written in Verus. Every function carries a contract and is
  proved against it. The core is `matching` (pairing occurrences), `change`,
  `propagate` (what a change reached), `review`, `order` (the reading) and `shape`
  (groups). The extractors' logic lives here too: `items` and `syntax` read Rust
  source, `walking` and `frontier` decide what a language server is asked next,
  `symbols` and `opened` read its answers. `diff`, `completeness`, `assign` and
  `syntax` call outside crates (`similar`, `glob`, `syn`) through small trusted
  wrappers whose contracts say what those crates do.
- `tests/` exercises the library on concrete values.
- `app/` is the command line program around the library: argument handling, git,
  files, and the language server process.
