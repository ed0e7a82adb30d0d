# vindex_collect

A verified Verus library: the collector behind distance range search over the
lists of a vector index.

A scan kernel hands every row it visits to a collector. `RangeCollector` keeps
the rows whose distance lies in a half-open band `[lower, upper)`, counts the
rows that were read, and publishes the partial distance at which a row can be
given up early without ever losing one that belongs to the band.

| module      | what it holds                                                      |
|-------------|--------------------------------------------------------------------|
| `single`    | single-precision numbers by bit pattern, and their value in units of 2^-149 |
| `rounding`  | rounding of integers to a number of significant bits, ties to even |
| `band`      | metrics, bounds and half-open bands                                |
| `threshold` | the early-abandon threshold, as a chain of integer operations rounded like doubles |
| `margin`    | laws: the threshold dominates the error bound, is tight, and grows with the dimension and the cut |
| `collect`   | the `Collector` trait and `RangeCollector`                         |
| `scan`      | laws: what a whole scan leaves in a collector, with and without pruning |
| `error`     | the error of a row whose distance is not finite, with its text     |

What Verus proves of the threshold speaks of integers: every step is the exact
result rounded to 53 bits, and the last one to 24. That this is what the
machine's double arithmetic computes is not proved; the sweeps in
`tests/threshold.rs` compare the two bit for bit.

Nothing in the library is trusted: there is no outside call. `app/` puts floats
and `std::io` errors on top.
