# redo-msh

A cross-platform, parallel build system in the manner of DJB's `redo`, written in
Verus: the logic is a library whose behaviour is stated in contracts and proved.

- `src/` is the library. It decides: which paths name which target (`paths`,
  `root`, `lock`), which do-file builds it and what runs the do-file (`dofile`,
  `config`), whether it is out of date (`stamp`, `outdated`, `check`), in which
  steps it is built and committed (`steps`, `building`, `overwrite`), what is
  recorded (`db`), who may wait for whom without a deadlock (`waits`, `reach`), how
  many builds run at once and what becomes of speculative ones (`jobserver`,
  `tokens`, `parallel`, `work`), what a do-file's commands come to (`requests`,
  `asking`), how the logs of parallel builds become one (`logs`, `follow`), what the
  traces of `--verbose` and `--debug-jobs` say (`notes`), and what the command line
  asks for (`cli`, `tree`, `order`).
- `app/` is the program around it: files, locks, processes, threads, the SQLite
  database and the terminal. It performs the steps that the library gives, and
  tells the library what they came to. `main.rs` is the root of `redo-msh`; each of
  the commands that ship beside it has a root file of its own, `redo.rs` and so on.
- `tests/` runs the library on concrete projects.

Public proof functions whose names start with `law_` state what holds of the
library as a whole: that the waits-for graph stays free of cycles and somebody can
always proceed, that a build in flight is marked until it commits, that nothing is
overwritten silently, that a log is terminated before the lock is released, that no
token is lost, and so on.
