# notify

The decisions of a file system notification library, written in Verus and proved: which paths are
watched and through which handles, what is reported when the system tells of a change, and what is
asked of the system next.

- `src/` is the verified library.
  - `path`, `path_map`, `path_list`, `path_trie`, `consolidating_path_trie`, `bimap`, `queue`:
    paths as sequences of components, and the collections keyed by them.
  - `config`, `event`, `error`, `report`, `root`, `outcome`, `filter`: what is watched, and what is
    reported.
  - `inotify`, `kqueue`, `fsevent`: the back ends. An event loop is a stack of tasks: `step` takes
    the answer of the system to the last request and returns the next request. The `laws` modules
    state what holds over whole runs, whatever the system answers.
- `tests/` run the library against small models of a file system and of the kernel's watches.
- `app/` makes the system calls, runs the threads and hands events to the user's handler.
