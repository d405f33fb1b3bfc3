# kladde

A markdown notebook library, verified with Verus: section-aware appends,
bullet removal and task toggling (`structure`), frontmatter properties
(`frontmatter`), configuration (`config`), daily note names (`day`), note
lookup (`notebook`), templates (`template`), write names and appended text
(`write`), and the editor command (`editor`).

- `src/` is the library; every function in it is verified against its
  contract, and the laws relating its operations are proof functions
  (`frontmatter/laws.rs`, `structure/laws.rs`, `write.rs`, `config.rs`).
- `tests/` runs the library on concrete notes.
- `app/` is the `kladde` command line: arguments, the environment, the
  clock, locks and the filesystem around the library's text edits.
