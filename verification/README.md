# rerun

Watch a directory tree for file changes and automatically restart a command:

```
rerun [OPTIONS] -- <COMMAND>...

  -p, --path <PATH>       Root directory to watch (default: ".")
  -e, --ext <EXT>         Comma-separated file extensions to filter (e.g. "rs,toml")
  -d, --debounce <MS>     Quiet period in milliseconds (default: 200)
  -h, --help              Print this help message
```

The decisions of the tool are a library verified with Verus (`src/`); the
program around it (`app/`) does the I/O: reading the command line and
`.gitignore`, walking the tree, receiving file-system events, sleeping,
spawning and signalling the child.

- `src/argparse.rs` — the command line, stated as a function from the
  argument list to settings or an error.
- `src/ignore.rs` — the ignore filter: default names, command-line
  patterns, `.gitignore` lines; a path is ignored when one of its
  components matches a pattern.
- `src/path.rs`, `src/text.rs` — path components and extensions (Unix
  rules of `std::path`), trimming, splitting.
- `src/watcher.rs` — which events are worth a rerun; the polling watcher's
  latest modification time and change test.
- `src/debounce.rs` — the debouncer as a step function, with its laws
  (bursts coalesce, no trigger without an event, end of input flushes).
- `src/runner.rs` — splitting a command, and when an interrupted child is
  killed.
