# ivf_fraud

Fraud scoring by nearest-neighbour search. A transaction becomes a vector of 14
numbers; the five nearest of a few million labelled reference vectors are found
in an inverted-file index of int8 vectors; the number of frauds among them gives
the answer.

- `src/` is the verified library: the index format, quantization, the search,
  the decision, the making of vectors, clustering, the reading of the reference
  file, the diagnosis of wrong answers, timing reports and command lines. Every
  function states what it computes, and Verus proves it.
- `app/` is ordinary Rust around it: the HTTP server, the offline tools
  (`buildindex`, `classify_mismatches`, `calibrate_probes`), file access, JSON,
  and floating-point arithmetic.
- `tests/` runs the library.

The library holds a single-precision number as its bit pattern. A distance comes
in as the bit pattern of a non-negative number, which orders as the number does.

`chrono` reads and computes times, and `rand` with `rand_chacha` shuffles; what
the library relies on of them is stated in `src/clock.rs` and `src/kmeans.rs`.
