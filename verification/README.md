# gitflex

A picker for local Git branches — clean, delete, switch, rebase and merge — with
the `cleanbranches` list and the two small helpers that came with it,
`toolinstall` and `passwordgen`.

- `src/` is the library, verified with Verus: the branch model and the decisions
  about a repository (`git`), the history files and the rows of the history
  database (`git`, `history`), the picker's state machine and the commands that
  offer it (`ui`), the `cleanbranches` list (`cleanbranches`), the sort that orders branches (`order`), text handling
  (`text`), and the logic of the two helpers (`tools`, `password`).
- `app/` is the program around it: the command line, the repository through
  `git2` and `git`, the database through `sqlx`, the terminal through `ratatui`,
  and the helpers' file and process work. The binary picks its program by the
  name it is run under (`cleanbranches`, `toolinstall`, `passwordgen`, else the
  picker).
- `tests/` runs the library.
