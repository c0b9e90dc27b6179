# sakuin

A literal, case-insensitive full-text search engine for source trees, with its decisions
verified by [Verus](https://github.com/verus-lang/verus).

An index proposes candidate files; a line scan of each candidate decides what matches. A
watcher and git keep the index current, and one background thread runs the searches of an
editor.

- `src/` is the verified library. Every function states what it returns or changes, and the
  properties that hold across functions stand beside them as proof functions.
- `app/` is the program around it: the command line, the C interface, the index on disk, the
  file system, git and the threads.
- `tests/` runs the library on concrete values.

| Module | What it decides |
| --- | --- |
| `text`, `paths`, `order` | characters, paths read as components, the order of paths |
| `search` | from a query to candidate patterns, from a file's bytes to results |
| `tokenizer` | trigrams of texts and queries |
| `index`, `indexing` | fields and documents, what an update adds, replaces and removes |
| `path_filter`, `walker`, `binary_detect` | which files are indexed |
| `git`, `watcher` | what events and git operations ask for |
| `bridge`, `search_worker`, `state` | messages, the search thread, the engine's life |
| `project_config`, `types`, `logging`, `ffi`, `cli` | configuration, logs, the boundary, the output |

The command line builds, syncs, searches and inspects an index:

    sakuin-cli build <root> [--index-dir <dir>]
    sakuin-cli sync <root> [--index-dir <dir>]
    sakuin-cli search <root> <query> [--index-dir <dir>] [--limit <n>]
    sakuin-cli stats <root> [--index-dir <dir>]
