# serdir

A library for serving static files over HTTP. `src/` makes the decisions, and Verus proves that each
of them is what its contract says; `app/` is the file system, the runtime and the streams around it.

- `compression` - which content codings a client accepts (`Accept-Encoding`)
- `range` - which byte ranges a request asks for (`Range`)
- `paths` - which request paths are safe, and where they lead (paths as on Unix)
- `content_type` - content types by file extension
- `node` - which of a file and its compressed copies answers, and the headers that go with it
- `served_dir` - a directory of files: from a request to a file and its headers
- `etag`, `file` - entity tags, and reading files chunk by chunk
- `cached_compression`, `brotli_cache` - when a file is compressed, and when a copy is reused
- `headers`, `text` - HTTP headers and byte strings

The library calls `http`, `memchr`, `mime_guess`, `fixed-cache` and `sieve-cache`. What it takes from
them, and from `std` where `vstd` says nothing, stands in contracts that are believed and not
proved: each has a doc comment that names the function and says what is claimed of it.
