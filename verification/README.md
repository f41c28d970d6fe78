# zhtta core

The request-handling core of a small multi-threaded HTTP server, with its
contracts and proofs, and the program around it.

- `src/` — the verified library (crate `lib`):
  - `bytes` — searching, slicing and replacing in byte strings;
  - `keyed` — lookup in sequences of entries keyed by byte strings;
  - `http` — response heads, decimal numbers, the counter and not-found pages;
  - `request` — request targets, routing, peer names, log lines;
  - `path` — resolving a requested path against the served directory (".." may
    climb out of it), extensions;
  - `ssi` — `#exec` include directives and their expansion;
  - `static_file` — block-wise sending and the file cache;
  - `lru` — the least-recently-used cache;
  - `queue` — the static-request queue that serves favoured networks first;
  - `peers` — connections held per peer until a responder takes them;
  - `server` — the shared state and the dispatcher's decisions;
  - `args` — the command line;
  - `time` — the time stamp written in the log.
- `tests/` — tests of the library on concrete values.
- `app/` — the program: sockets, threads, files, running include commands.
