# vectordb

An embedded vector database, with its logic verified by Verus.

Points are identifiers with vectors and JSON payloads. They live in collections, which are
looked up, listed by pages, and searched for the points nearest to a vector, with conditions on
the payloads. A directory holds a database.

- `src/` is the library. It is verified: segments, indexes, the log, recovery, flushing,
  compacting, conditions, the layout of the files.
- `app/` is what surrounds it: the command line, the HTTP server, the WebAssembly binding, the
  file system of the machine, the JSON texts, and the floating-point arithmetic.
- `tests/` run the library on files in memory.

On storage that is reliable and has room, opening, writing, flushing and compacting succeed as
long as numbers are left, no collection has too many rows, and everything can be turned into
bytes; the contracts in `src/engine/store.rs` and `src/engine/reopen.rs` say so. Whenever storage
fails, the files still hold what the database keeps.

What is stated about the library as a whole stands in functions whose names begin with `law_`.
Vectors and scores are bit patterns of IEEE 754 numbers there; the arithmetic on them is given
to the library as a pair of functions.
