# kasma

A segmented HTTP download engine. A download is divided into byte ranges, each
fetched by its own connection (a worker); as connections are added, ranges are
split in a byte-range tree, and workers that finish are given new ranges. Each
worker flushes what it receives to temp files named `<worker>#<start>-<end>`,
which are checked and assembled into the file at the end.

## Layout

- `src/` is the library, verified with Verus:
  - `byte_range`, `segment`: inclusive byte ranges and their `Range` header.
  - `byte_range_tree`: the tree of ranges in an arena, its splits, and the laws
    that its leaves keep tiling the file.
  - `engine`: the engine's state and decisions: missing ranges, corrupted temp
    files, the estimate of the time left, spawning and answering workers.
  - `worker`: a worker's decisions: starting, answering a request for a new range,
    flushing and cutting temp files, retry delays.
  - `http`, `redirect`: what response headers say of a file, and how redirects are
    followed.
  - `utils`: temp-file names, a cached copy that tells whether its source
    changed, the clock.
  - `text`, `sort`: decimal text and a stable sort by start byte.
- `tests/`: tests of the library on concrete values.
- `app/`: the program around it: the terminal front end, the threads and async
  runtimes of the engine and its workers, data shared between threads and
  locking, the HTTP client and the file system.
