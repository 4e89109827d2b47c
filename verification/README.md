# nse

The Neuro-Sparse Engine: small transformer language models whose weight matrices can be
turned into sparse layers, with a verified library underneath.

A sparse layer keeps the rows of a matrix with the largest norms as they are, groups the
others into micro-experts in quantised form, and stands in for the experts that an input
does not activate with a bias.

- `src/` is the library, written in Verus: the container format, the dense model with its
  gradients, the trainers, transmutation, the kernels, the indexes and the router, the sparse
  forward pass and its evaluation. What each function computes is stated in its `ensures`;
  what holds across functions is stated by the public proof functions named `law_...`.
- `app/` is the command line around it: arguments, files, and the arithmetic over `f32`.
- `tests/` runs the library.

## Numbers

All arithmetic goes through the trait `scalar::Scalar`. Contracts say which operations are
made, and in which order, so they hold for floating point as they stand. Where a statement
needs the numbers to be ordered (no NaN), or sums not to depend on their order, it says so:
see `scalar::comparable`, `kernel::adds_exactly` and `reconstruction::multiplies_exactly`.
The library itself brings the arithmetic of machine integers; `app/` brings that of `f32`.

## Randomness

Weights, shuffles and levels come from a generator of the library. Hyperplanes and the
negative windows of forward-forward training come from `rand`'s `StdRng`; what is taken on
trust of it stands in `generator`.
