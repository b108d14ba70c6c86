# kwik

A utility library: hash-indexed collections (list, AVL tree, graph),
number and time formatting, text tables, set relations, Zipf frequency
counts, binary and CSV chunk encodings, file digests, a progress bar,
a genetic-algorithm driver and plot scaling.

## Layout

- `src/` is the library, written in Verus. Its functions state their
  behaviour in `requires` / `ensures` over mathematical models (`Seq`,
  `Map`, `Multiset`, `int`), and Verus proves them; the AVL tree, for one,
  is proved to stay a balanced search tree through every insert, update and
  removal. Where a result comes from code that users supply (their chunk
  and row encodings, their genes), the contract says what holds whatever
  that code does. Laws that relate several
  operations stand as public proof functions beside the code they speak of.
  The few calls into other crates (digests, string collection, I/O errors)
  stand behind small trusted wrappers whose doc comments say what is
  assumed.
- `tests/` runs the library on concrete values.
- `app/` is ordinary Rust around the library: files and `/proc`, threads,
  clocks, random numbers, floating-point statistics and gnuplot output. It
  calls the library for the decisions and text it computes.
