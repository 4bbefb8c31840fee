# jjp

A parallel HTTP downloader whose logic is verified with Verus.

- `src/` is the library. It holds the two ways of downloading a file, in segments of a chosen
  length and in a chosen number of tasks, with the progress lines that go with them and a
  memory-mapped file to write to. Every function states in its contract what it returns, and
  the public proof functions named `law_..` state what holds of the library as a whole.
- `app/` is the program around it: the command line, the requests, the files and the waiting.
- `tests/` runs the library, also against the floating-point arithmetic of the machine, which
  `src/single.rs` computes on whole numbers.

What is taken on trust stands in `src/headers.rs` (header maps), `src/jjp.rs` (the URL parser),
`src/map_file.rs` (the memory map) and `src/text.rs` (`String::push`); each such item says what it
claims.
