# trail

Understand how your code changed, not just what changed.

`trail` reconstructs the development history of a Git worktree: commits, the
reflog, the working tree, and what was recorded while someone worked in it.

## Layout

- `src/` is the library. Everything it decides or computes is written in Verus
  and proved: what a report holds, how events fold into checkpoints, which
  commit a checkpoint belongs to, how an edited buffer is read and merged, what
  a key does in the browser, and the text of every view.
- `app/` is the program around it: command line, `git`, `gix`, the disk, the
  file watcher, the terminal and JSON.
- `tests/` exercise the library with plain values.

| module | what it holds |
|---|---|
| `text`, `path`, `time`, `order`, `map`, `data` | texts, paths, points in time, sorting, maps |
| `git` | what git prints, HEAD, base branches, baselines, commits, worktrees |
| `recorder` | the tracker, sessions, checkpoints, snapshots, the metadata overlay |
| `trail` | events, the timeline, attachment to commits, reports, worktrees |
| `review` | sections, selectors, diffs |
| `edit` | the editable buffer, merging it back, opening files |
| `display`, `tui`, `cli` | text views, the interactive browser, what a command line asks for |

Types denote mathematical values: a type `T` has a view `TView`, and contracts
speak of views. What holds of the library as a whole is stated in public proof
functions, next to the functions it is about or in a module called `laws`.

A few functions of `std`, `chrono`, `gix` and `shell-words` are called through
wrappers whose contracts are stated, not proved; each says what it claims.
