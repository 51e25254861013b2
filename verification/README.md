# loch

Per-commit lines-of-code history of a git branch. `loch` walks the
first-parent chain of a revision, oldest commit first, counts each commit's
tree per language with tokei (read straight from the object database, no
working tree), and writes one CSV or JSON-lines row per commit, optionally
preceded by per-language rows.

The library (`src/`) is verified with Verus:

- `counts`: per-language counts and totals, as a map ordered by language.
- `excludes`: repo-root-anchored exclude patterns and the walk state that
  applies them.
- `blob`: the size guard, the binary sniff, the first line a shebang is read
  from, and the extension test on entry names.
- `world`: the model the counting is specified against. Every answer the
  counter receives (a tree's entries, a blob's size and bytes, a detected
  language) is recorded; results hold in every world that gives the recorded
  answers.
- `counter`: the tree walk with its memoized trees, classifications, line
  counts and shebang detections, and its skip accounting.
- `skips`: which blobs of a tree a walk records as skipped (unrecognized,
  binary or huge).
- `walk`: the first-parent history, oldest first (the revision peeled to
  its commit, the walk from it reversed), and a commit's time and tree,
  specified against the repository's recorded answers.
- `output`: timestamps, ids in hexadecimal, name-sorted language rows, grand
  totals, and which commits are sampled.
- `languages`, `repo`: the calls into tokei, tempfile and gix. Each read
  attests its answer to the question it was asked, and only attested
  answers are recorded.

`app/` is the command line: argument parsing, repository discovery, the
per-commit loop, and the CSV and JSON writers.
