# walkdir_minimal

A depth-first directory walker for POSIX systems whose traversal rules are
proved with Verus.

- `src/` is the verified library. `walker.rs` holds `WalkDir`, a state machine
  that decides every step of a walk (which directory to open, read, stat or
  close, and what to hand to the user) from the outcomes it is told about;
  `error.rs` holds the error types; `options.rs` the options and their defaults;
  `tree.rs` models a finite directory tree, answers every action of a walk from
  it, and proves, for walks that do not follow symbolic links, what a whole walk
  hands out: every kept node within the depth limit once, in depth-first
  pre-order, and then the end; and that ignoring errors or adding a filter
  removes exactly the errors or the pruned subtrees. `links.rs` models a
  filesystem whose links may close cycles and proves, for walks that follow
  links with loop detection on, that a walk ends, hands out no directory twice,
  and that ignoring errors removes the errors and nothing else.
- `app/` is the unverified driver: it performs the filesystem calls with
  `std::fs`, feeds their outcomes to the state machine and exposes the walk as
  an `Iterator` of `Entry` values.
- `tests/` drives the state machine over an in-memory file tree.
