# gitplot

A desktop app that plots a git repository's lines of code over time, and the
verified library behind it.

- `src/` is the library, checked by Verus: the choice of the last commit of each
  day and the commit count per day (`git_walk`), the code-line count of a file and
  the extension bucket it falls in (`loc`), the sum per bucket of a tree and the
  assembly of the per-day results (`git_walk`), the application's state and how
  each message changes it (`app`), the chart's points and axes (`chart`), string
  keyed sets and maps in `BTreeMap` order (`keyed`, `text`), and the integer
  rounding that reproduces the one-decimal count labels (`rounding`).
- `app/` is the program: the iced window and its styles, the plotters drawing,
  and the history walk that reads the repository with git2 on worker threads.
- `tests/` runs the library on concrete values.
