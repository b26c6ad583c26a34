# rpgrep

Probabilistic code search without language models: a query and a budget of
tokens go in, a small set of relevant and diverse chunks of code comes out.

1. An Xor filter per file rules out files that hold none of the query's tokens.
2. BM25 ranks the chunks of the files that are left.
3. MinHash signatures estimate how alike two chunks are.
4. A quadratic binary problem, solved by simulated annealing, picks the chunks.

## Layout

- `src/` is the library, verified with Verus.
  - `text`, `glob`, `path`, `order`, `single`: tokens and lines, patterns, paths,
    sorting, and the order of single-precision numbers by their bit patterns.
  - `syntax`, `chunk`: files cut into chunks, by syntax or by lines.
  - `index`: the filters, the ranking statistics, the signatures, the choice of
    files, the frame of an index file and the archive in it, and the whole index.
  - `search`: the choice problem, its solver, and the search as a whole.
  - `serve`, `cli`: what is answered on a connection, and what is to be done for
    a command line or a change in a watched directory.
- `app/` is the program around it: arguments, disk, socket, file watching, and
  the floating-point formulas that the library is handed.
- `tests/` runs the library.

Results of `tree-sitter`, `xorf`, `rkyv`, `rand` and a few functions of `std` are
trusted; each such place says what is taken for granted.
